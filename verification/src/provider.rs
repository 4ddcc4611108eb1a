//! The graph table provider: an ontology's merged, labelled edge list
//! served as a table, the CSR topology built from it, and the table
//! schemas the ontology's definitions imply.
//!
//! Reading the ontology's source tables is the query engine's work; it
//! hands the provider, per edge definition, the source and target columns
//! it read (cast to `UInt64`, `None` for nulls).

use std::sync::Arc;

use vstd::prelude::*;

use crate::build_exec::present_pairs;
use crate::catalog::share;
use crate::csr::{build_result, default_build_config, CsrBuilder, CsrGraph};
use crate::engine::{is_plan, DataFusionError, EngineError};
use crate::error::GraphError;
use crate::ontology::{
    edge_labels_of,
    first_match,
    node_labels_of,
    validation_verdict,
    EdgeDefinition,
    IdType,
    NodeDefinition,
    Ontology,
    OntologyError,
};
use crate::traversal::TraversalSpec;
use crate::traversal_exec::GraphTraversalExec;
use crate::types::GraphStatistics;

verus! {

/// Column types of the provider's schemas.
#[derive(Debug, Clone, Copy, PartialEq, Eq, Structural)]
pub enum ColumnType {
    /// Unsigned 32-bit integers.
    UInt32,
    /// Unsigned 64-bit integers.
    UInt64,
    /// Fixed-size binary values of 16 bytes.
    FixedSizeBinary16,
    /// UTF-8 strings.
    Utf8,
    /// 64-bit floating-point numbers.
    Float64,
}

/// A field of a table schema.
#[derive(Debug, Clone)]
pub struct FieldSpec {
    /// Field name.
    pub name: String,
    /// Field type.
    pub data_type: ColumnType,
    /// Whether the field may hold nulls.
    pub nullable: bool,
}

/// The fields of a schema, by name, type and nullability.
pub open spec fn field_views(s: Seq<FieldSpec>) -> Seq<(Seq<char>, ColumnType, bool)> {
    s.map_values(|f: FieldSpec| (f.name@, f.data_type, f.nullable))
}

/// The column type of node IDs of `t`: string IDs are hashed to `UInt64`.
pub open spec fn id_column_type(t: IdType) -> ColumnType {
    match t {
        IdType::U32 => ColumnType::UInt32,
        IdType::U64 => ColumnType::UInt64,
        IdType::String => ColumnType::UInt64,
        IdType::U128 => ColumnType::FixedSizeBinary16,
    }
}

/// Nullable `Utf8` fields named after `props`.
pub open spec fn property_fields(props: Seq<String>) -> Seq<(Seq<char>, ColumnType, bool)> {
    props.map_values(|p: String| (p@, ColumnType::Utf8, true))
}

/// The schema of a node type: its ID, its label, its properties.
pub open spec fn node_fields(id: ColumnType, n: NodeDefinition) -> Seq<(Seq<char>, ColumnType, bool)> {
    seq![("node_id"@, id, false), ("label"@, ColumnType::Utf8, false)] + property_fields(n.properties@)
}

/// The schema of an edge type: its end IDs, its label, its weight if it
/// has a weight column, its properties.
pub open spec fn edge_fields(id: ColumnType, e: EdgeDefinition) -> Seq<(Seq<char>, ColumnType, bool)> {
    seq![("source_id"@, id, false), ("target_id"@, id, false), ("label"@, ColumnType::Utf8, false)] + (if e.weight_column
        is Some {
        seq![("weight"@, ColumnType::Float64, true)]
    } else {
        Seq::empty()
    }) + property_fields(e.properties@)
}

/// The merged edge-list schema: source, target, label.
pub open spec fn edge_list_fields() -> Seq<(Seq<char>, ColumnType, bool)> {
    seq![("source"@, ColumnType::UInt64, false), ("target"@, ColumnType::UInt64, false), ("label"@, ColumnType::Utf8, false)]
}

fn field(name: &str, data_type: ColumnType, nullable: bool) -> (r: FieldSpec)
    ensures
        r.name@ == name@,
        r.data_type == data_type,
        r.nullable == nullable,
{
    FieldSpec { name: String::from_str(name), data_type, nullable }
}

fn push_properties(fields: &mut Vec<FieldSpec>, props: &Vec<String>)
    ensures
        field_views(final(fields)@) == field_views(old(fields)@) + property_fields(props@),
{
    let ghost f0 = fields@;
    let mut i: usize = 0;
    while i < props.len()
        invariant
            i <= props@.len(),
            field_views(fields@) == field_views(f0) + property_fields(props@.take(i as int)),
        decreases props@.len() - i,
    {
        let ghost before = fields@;
        fields.push(FieldSpec { name: props[i].clone(), data_type: ColumnType::Utf8, nullable: true });
        proof {
            assert(props@.take(i + 1) =~= props@.take(i as int).push(props@[i as int]));
            assert(field_views(fields@) =~= field_views(before).push((props@[i as int]@, ColumnType::Utf8, true)));
            assert(property_fields(props@.take(i + 1)) =~= property_fields(props@.take(i as int)).push(
                (props@[i as int]@, ColumnType::Utf8, true),
            ));
        }
        i = i + 1;
    }
    proof {
        assert(props@.take(i as int) =~= props@);
    }
}

/// The labelled edge list of one edge definition.
#[derive(Debug, Clone)]
pub struct EdgeList {
    /// Source IDs.
    pub sources: Vec<u64>,
    /// Target IDs, parallel to `sources`.
    pub targets: Vec<u64>,
    /// The edge label of every row.
    pub label: String,
}

/// The present pairs of one edge definition's columns.
pub open spec fn pairs_of(c: (Vec<Option<u64>>, Vec<Option<u64>>)) -> Seq<(u64, u64)> {
    present_pairs(c.0@, c.1@, c.0@.len())
}

/// The edges of the first `k` edge definitions, one after the other.
pub open spec fn merged_pairs(cols: Seq<(Vec<Option<u64>>, Vec<Option<u64>>)>, k: nat) -> Seq<(u64, u64)>
    decreases k,
{
    if k == 0 {
        Seq::empty()
    } else {
        merged_pairs(cols, (k - 1) as nat) + pairs_of(cols[k - 1])
    }
}

/// `l` is the edge list of edge definition `e` with the pairs `p`.
pub open spec fn list_of(l: EdgeList, e: EdgeDefinition, p: Seq<(u64, u64)>) -> bool {
    &&& l.sources@ == p.map_values(|x: (u64, u64)| x.0)
    &&& l.targets@ == p.map_values(|x: (u64, u64)| x.1)
    &&& l.label@ == e.label@
}

/// A table provider over an ontology's merged edge list.
#[derive(Debug)]
pub struct GraphTableProvider {
    ontology: Ontology,
    graph: Arc<CsrGraph>,
    edge_lists: Vec<EdgeList>,
    materialized: bool,
}

impl GraphTableProvider {
    /// The ontology.
    pub closed spec fn spec_ontology(&self) -> Ontology {
        self.ontology
    }

    /// The graph (empty until materialized).
    pub closed spec fn spec_graph(&self) -> CsrGraph {
        *self.graph
    }

    /// The edge lists served by scans, one per edge definition.
    pub closed spec fn spec_lists(&self) -> Seq<EdgeList> {
        self.edge_lists@
    }

    /// Whether the provider has been materialized.
    pub closed spec fn spec_materialized(&self) -> bool {
        self.materialized
    }

    /// The graph is well formed.
    pub open spec fn wf(&self) -> bool {
        self.spec_graph().wf()
    }

    /// Creates a provider for `ontology`, not yet materialized.
    pub fn new(ontology: Ontology) -> (r: Self)
        ensures
            r.wf(),
            r.spec_ontology() == ontology,
            r.spec_graph()@.node_count == 0,
            r.spec_graph()@.edge_count == 0,
            r.spec_lists().len() == 0,
            !r.spec_materialized(),
    {
        GraphTableProvider {
            ontology,
            graph: Arc::new(CsrGraph::empty()),
            edge_lists: Vec::new(),
            materialized: false,
        }
    }

    /// The merged edge-list schema: `source UInt64, target UInt64, label Utf8`.
    pub fn edge_list_schema() -> (r: Vec<FieldSpec>)
        ensures
            field_views(r@) == edge_list_fields(),
    {
        let mut v: Vec<FieldSpec> = Vec::new();
        v.push(field("source", ColumnType::UInt64, false));
        v.push(field("target", ColumnType::UInt64, false));
        v.push(field("label", ColumnType::Utf8, false));
        proof {
            reveal_strlit("source");
            reveal_strlit("target");
            reveal_strlit("label");
            assert(field_views(v@) =~= edge_list_fields());
        }
        v
    }

    /// Returns the ontology.
    pub fn ontology(&self) -> (r: &Ontology)
        ensures
            *r == self.spec_ontology(),
    {
        &self.ontology
    }

    /// Returns the node labels.
    pub fn node_labels(&self) -> (r: Vec<&str>)
        ensures
            r@.map_values(|s: &str| s@) == node_labels_of(self.spec_ontology()),
    {
        self.ontology.node_labels()
    }

    /// Returns the edge labels.
    pub fn edge_labels(&self) -> (r: Vec<&str>)
        ensures
            r@.map_values(|s: &str| s@) == edge_labels_of(self.spec_ontology()),
    {
        self.ontology.edge_labels()
    }

    /// Returns true if the CSR is materialized.
    pub fn is_materialized(&self) -> (r: bool)
        ensures
            r == self.spec_materialized(),
    {
        self.materialized
    }

    /// Returns the statistics of the graph.
    pub fn statistics(&self) -> (r: GraphStatistics)
        requires
            self.wf(),
        ensures
            r.node_count == self.spec_graph()@.node_count,
            r.edge_count == self.spec_graph()@.edge_count,
            r.shard_count == self.spec_graph().shard_bounds().len(),
            r.memory_bytes == self.spec_graph().memory_spec(),
            r.delta_entries == crate::csr::sat(
                (self.spec_graph()@.delta.ins.dom().len() + self.spec_graph()@.delta.del.len()) as int,
            ),
    {
        self.graph.statistics()
    }

    /// Returns the graph.
    pub fn graph(&self) -> (r: &Arc<CsrGraph>)
        ensures
            **r == self.spec_graph(),
    {
        &self.graph
    }

    /// The edge lists served by scans.
    pub fn edge_lists(&self) -> (r: &[EdgeList])
        ensures
            r@ == self.spec_lists(),
    {
        self.edge_lists.as_slice()
    }

    /// The schema of the node type `label`, if the ontology defines it.
    pub fn node_schema(&self, label: &str) -> (r: Option<Vec<FieldSpec>>)
        ensures
            match first_match(node_labels_of(self.spec_ontology()), label@) {
                Some(i) => r is Some && field_views(r->0@) == node_fields(
                    id_column_type(self.spec_ontology().settings.default_node_id_type),
                    self.spec_ontology().nodes@[i],
                ),
                None => r is None,
            },
    {
        let node_def = match self.ontology.node(label) {
            Some(n) => n,
            None => {
                return None;
            },
        };
        let id_type = id_type_of(self.ontology.settings.default_node_id_type);
        let mut fields: Vec<FieldSpec> = Vec::new();
        fields.push(field("node_id", id_type, false));
        fields.push(field("label", ColumnType::Utf8, false));
        let ghost head = field_views(fields@);
        push_properties(&mut fields, &node_def.properties);
        proof {
            reveal_strlit("node_id");
            reveal_strlit("label");
            assert(head =~= seq![("node_id"@, id_type, false), ("label"@, ColumnType::Utf8, false)]);
        }
        Some(fields)
    }

    /// The schema of the edge type `label`, if the ontology defines it.
    pub fn edge_schema(&self, label: &str) -> (r: Option<Vec<FieldSpec>>)
        ensures
            match first_match(edge_labels_of(self.spec_ontology()), label@) {
                Some(i) => r is Some && field_views(r->0@) == edge_fields(
                    id_column_type(self.spec_ontology().settings.default_node_id_type),
                    self.spec_ontology().edges@[i],
                ),
                None => r is None,
            },
    {
        let edge_def = match self.ontology.edge(label) {
            Some(e) => e,
            None => {
                return None;
            },
        };
        let id_type = id_type_of(self.ontology.settings.default_node_id_type);
        let mut fields: Vec<FieldSpec> = Vec::new();
        fields.push(field("source_id", id_type, false));
        fields.push(field("target_id", id_type, false));
        fields.push(field("label", ColumnType::Utf8, false));
        if edge_def.weight_column.is_some() {
            fields.push(field("weight", ColumnType::Float64, true));
        }
        let ghost head = field_views(fields@);
        push_properties(&mut fields, &edge_def.properties);
        proof {
            reveal_strlit("source_id");
            reveal_strlit("target_id");
            reveal_strlit("label");
            reveal_strlit("weight");
            assert(head =~= seq![
                ("source_id"@, id_type, false),
                ("target_id"@, id_type, false),
                ("label"@, ColumnType::Utf8, false),
            ] + (if edge_def.weight_column is Some {
                seq![("weight"@, ColumnType::Float64, true)]
            } else {
                Seq::empty()
            }));
        }
        Some(fields)
    }

    /// Builds the merged graph and the edge lists from the columns read for
    /// each edge definition, in definition order.
    ///
    /// The ontology is validated first; a refused ontology leaves the
    /// provider unchanged. Each definition contributes the rows where both
    /// IDs are present; all of them together form the graph's edges. A
    /// failed build leaves the provider unchanged too.
    pub fn materialize(&mut self, columns: Vec<(Vec<Option<u64>>, Vec<Option<u64>>)>) -> (r: Result<
        (),
        DataFusionError,
    >)
        requires
            old(self).wf(),
            columns@.len() == old(self).spec_ontology().edges@.len(),
            forall|k: int| 0 <= k < columns@.len() ==> (#[trigger] columns@[k]).0@.len() == columns@[k].1@.len(),
        ensures
            final(self).wf(),
            final(self).spec_ontology() == old(self).spec_ontology(),
            exists|v: Result<(), OntologyError>|
                {
                    &&& validation_verdict(old(self).spec_ontology(), v)
                    &&& v is Err ==> r is Err && r->Err_0 == DataFusionError::Ontology(v->Err_0) && *final(self)
                        == *old(self)
                    &&& v is Ok ==> exists|gr: Result<CsrGraph, GraphError>|
                        {
                            &&& build_result(
                                merged_pairs(columns@, columns@.len()),
                                Seq::empty(),
                                default_build_config(),
                                gr,
                            )
                            &&& materialized_as(*old(self), *final(self), columns@, gr, r)
                        }
                },
    {
        let v = self.ontology.validate_or_error();
        match v {
            Err(e) => {
                return Err(DataFusionError::Ontology(e));
            },
            Ok(()) => {},
        }
        let mut all_edges: Vec<(u64, u64)> = Vec::new();
        let mut lists: Vec<EdgeList> = Vec::new();
        let mut k: usize = 0;
        while k < columns.len()
            invariant
                k <= columns@.len(),
                columns@.len() == self.ontology.edges@.len(),
                forall|q: int| 0 <= q < columns@.len() ==> (#[trigger] columns@[q]).0@.len() == columns@[q].1@.len(),
                all_edges@ == merged_pairs(columns@, k as nat),
                lists@.len() == k,
                forall|q: int|
                    0 <= q < k ==> list_of(#[trigger] lists@[q], self.ontology.edges@[q], pairs_of(columns@[q])),
            decreases columns@.len() - k,
        {
            let (s, t) = (&columns[k].0, &columns[k].1);
            let n = s.len();
            let mut sources: Vec<u64> = Vec::new();
            let mut targets: Vec<u64> = Vec::new();
            let ghost base = all_edges@;
            let mut i: usize = 0;
            while i < n
                invariant
                    i <= n,
                    n == s@.len(),
                    s@.len() == t@.len(),
                    all_edges@ == base + present_pairs(s@, t@, i as nat),
                    sources@ == present_pairs(s@, t@, i as nat).map_values(|x: (u64, u64)| x.0),
                    targets@ == present_pairs(s@, t@, i as nat).map_values(|x: (u64, u64)| x.1),
                decreases n - i,
            {
                let ghost p = present_pairs(s@, t@, i as nat);
                match (s[i], t[i]) {
                    (Some(a), Some(b)) => {
                        sources.push(a);
                        targets.push(b);
                        all_edges.push((a, b));
                        proof {
                            assert(present_pairs(s@, t@, (i + 1) as nat) == p.push((a, b)));
                            assert(all_edges@ =~= base + p.push((a, b)));
                            assert(sources@ =~= p.push((a, b)).map_values(|x: (u64, u64)| x.0));
                            assert(targets@ =~= p.push((a, b)).map_values(|x: (u64, u64)| x.1));
                        }
                    },
                    _ => {
                        proof {
                            assert(present_pairs(s@, t@, (i + 1) as nat) == p);
                        }
                    },
                }
                i = i + 1;
            }
            let label = self.ontology.edges[k].label.clone();
            let ghost l0 = lists@;
            lists.push(EdgeList { sources, targets, label });
            proof {
                assert(merged_pairs(columns@, (k + 1) as nat) == merged_pairs(columns@, k as nat) + pairs_of(
                    columns@[k as int],
                ));
                assert forall|q: int| 0 <= q < k + 1 implies list_of(
                    #[trigger] lists@[q],
                    self.ontology.edges@[q],
                    pairs_of(columns@[q]),
                ) by {
                    if q < k {
                        assert(lists@[q] == l0[q]);
                    }
                }
            }
            k = k + 1;
        }
        let ghost merged = all_edges@;
        let builder = CsrBuilder::new().with_edges(all_edges);
        proof {
            assert(builder.spec_edges() =~= merged);
            assert(builder.spec_config() == default_build_config());
        }
        let gr = builder.build();
        match gr {
            Ok(g) => {
                proof {
                    crate::compaction::lemma_build_ok_edges(merged, Seq::empty(), default_build_config(), Ok(g));
                }
                self.graph = Arc::new(g);
                self.edge_lists = lists;
                self.materialized = true;
                proof {
                    assert(materialized_as(*old(self), *self, columns@, Ok(g), Ok(())));
                }
                Ok(())
            },
            Err(e) => {
                let r = Err(DataFusionError::Graph(e));
                proof {
                    assert(materialized_as(*old(self), *self, columns@, Err(e), r));
                }
                r
            },
        }
    }

    /// Plans a traversal over the merged graph, once materialized.
    pub fn create_traversal_plan(&self, spec: TraversalSpec) -> (r: Result<GraphTraversalExec, DataFusionError>)
        requires
            self.wf(),
        ensures
            !self.spec_materialized() ==> r is Err && (match r->Err_0 {
                DataFusionError::PlanGenerationFailed { reason } => reason@
                    == "Graph must be materialized before traversal"@,
                _ => false,
            }),
            self.spec_materialized() ==> r is Ok && r->Ok_0.wf() && r->Ok_0.spec_graph() == self.spec_graph()
                && r->Ok_0.spec_reverse() is None && r->Ok_0.spec_spec() == spec,
    {
        if !self.materialized {
            proof {
                reveal_strlit("Graph must be materialized before traversal");
            }
            return Err(
                DataFusionError::PlanGenerationFailed {
                    reason: String::from_str("Graph must be materialized before traversal"),
                },
            );
        }
        Ok(GraphTraversalExec::new(share(&self.graph), spec))
    }

    /// The edge lists a scan serves, once materialized.
    pub fn scan_edge_lists(&self) -> (r: Result<&[EdgeList], EngineError>)
        ensures
            self.spec_materialized() ==> r is Ok && r->Ok_0@ == self.spec_lists(),
            !self.spec_materialized() ==> r is Err && is_plan(
                r->Err_0,
                "GraphTableProvider is not materialized; call materialize(ctx) first"@,
            ),
    {
        if !self.materialized {
            proof {
                reveal_strlit("GraphTableProvider is not materialized; call materialize(ctx) first");
            }
            return Err(
                EngineError::Plan(
                    String::from_str("GraphTableProvider is not materialized; call materialize(ctx) first"),
                ),
            );
        }
        Ok(self.edge_lists.as_slice())
    }
}

/// What a materialization that built `gr` leaves: on success the graph,
/// the edge lists of every definition and the materialized flag; on a
/// failed build, the provider as it was and the graph error.
pub open spec fn materialized_as(
    before: GraphTableProvider,
    after: GraphTableProvider,
    cols: Seq<(Vec<Option<u64>>, Vec<Option<u64>>)>,
    gr: Result<CsrGraph, GraphError>,
    r: Result<(), DataFusionError>,
) -> bool {
    match gr {
        Ok(g) => {
            &&& r is Ok
            &&& after.spec_graph() == g
            &&& after.spec_materialized()
            &&& after.spec_ontology() == before.spec_ontology()
            &&& after.spec_lists().len() == cols.len()
            &&& forall|q: int|
                0 <= q < cols.len() ==> list_of(
                    #[trigger] after.spec_lists()[q],
                    before.spec_ontology().edges@[q],
                    pairs_of(cols[q]),
                )
        },
        Err(e) => r == Err::<(), DataFusionError>(DataFusionError::Graph(e)) && after == before,
    }
}

fn id_type_of(t: IdType) -> (r: ColumnType)
    ensures
        r == id_column_type(t),
{
    match t {
        IdType::U32 => ColumnType::UInt32,
        IdType::U64 => ColumnType::UInt64,
        IdType::String => ColumnType::UInt64,
        IdType::U128 => ColumnType::FixedSizeBinary16,
    }
}

} // verus!
