//! Decision logic of the CSR build operator: which input columns hold the
//! edges, which rows become edges, when the edge buffer exceeds its memory
//! limit, and what the finished build reports.
//!
//! The operator itself (plan properties, record-batch streams) lives with
//! the query engine; it hands each input batch to a `CsrBuildStream` as an
//! `InputBatch` and the end of input as a call of `build_csr`.

use vstd::prelude::*;

use crate::csr::{build_result, CsrBuilder, CsrGraph};
use crate::engine::{concat, is_execution, EngineError};
use crate::error::{graph_error_message, GraphError};
use crate::ontology::{first_match, label_views, lemma_first_match};
use crate::text::{decimal, u64_to_decimal};

verus! {

/// Bytes one buffered edge occupies: a pair of `u64`.
pub const EDGE_BYTES: usize = 16;

/// Default shard size of the build operator: 64 MiB.
pub const DEFAULT_OPERATOR_SHARD_SIZE: usize = 67108864;

/// Number of logical CPUs available to this process.
///
/// Calls `num_cpus::get`, whose documentation promises a result of at
/// least 1; the value itself depends on the machine and is not stated.
#[verifier::external_body]
fn available_parallelism() -> (r: usize)
    ensures
        r >= 1,
{
    num_cpus::get()
}

/// Configuration of the CSR build operator.
#[derive(Debug, Clone)]
pub struct CsrBuildConfig {
    /// Shard size in bytes (default: 64 MiB).
    pub shard_size: usize,
    /// Parallelism for sorting/compacting.
    pub build_parallelism: usize,
    /// Memory limit for the edge buffer, in bytes.
    pub memory_limit: Option<usize>,
    /// Name of the source column (default: "source").
    pub source_column: String,
    /// Name of the target column (default: "target").
    pub target_column: String,
}

impl Default for CsrBuildConfig {
    fn default() -> (r: Self)
        ensures
            r.shard_size == DEFAULT_OPERATOR_SHARD_SIZE,
            r.build_parallelism >= 1,
            r.memory_limit is None,
            r.source_column@ == "source"@,
            r.target_column@ == "target"@,
    {
        CsrBuildConfig {
            shard_size: DEFAULT_OPERATOR_SHARD_SIZE,
            build_parallelism: available_parallelism(),
            memory_limit: None,
            source_column: String::from_str("source"),
            target_column: String::from_str("target"),
        }
    }
}

/// A column of an input batch as edge extraction sees it.
#[derive(Debug, Clone)]
pub enum InputColumn {
    /// A `UInt64` column; `None` marks a null.
    UInt64(Vec<Option<u64>>),
    /// A column of any other type.
    Other,
}

/// An input batch: its columns (in schema order) and its row count.
#[derive(Debug, Clone)]
pub struct InputBatch {
    /// The columns.
    pub columns: Vec<InputColumn>,
    /// Number of rows.
    pub num_rows: usize,
}

/// Every `UInt64` column of `b` has one value per row.
pub open spec fn batch_wf(b: InputBatch) -> bool {
    forall|i: int|
        #![trigger b.columns@[i]]
        0 <= i < b.columns@.len() ==> match b.columns@[i] {
            InputColumn::UInt64(v) => v@.len() == b.num_rows,
            InputColumn::Other => true,
        }
}

/// Where the schema names both configured columns, the batch holds
/// columns at their positions.
pub open spec fn columns_cover(fields: Seq<Seq<char>>, config: CsrBuildConfig, b: InputBatch) -> bool {
    match (first_match(fields, config.source_column@), first_match(fields, config.target_column@)) {
        (Some(i), Some(j)) => i < b.columns@.len() && j < b.columns@.len(),
        _ => true,
    }
}

/// The values of a `UInt64` column, or nothing for another type.
pub open spec fn column_values(c: InputColumn) -> Option<Seq<Option<u64>>> {
    match c {
        InputColumn::UInt64(v) => Some(v@),
        InputColumn::Other => None,
    }
}

/// The pairs of the first `n` rows where both values are present, in row
/// order.
pub open spec fn present_pairs(s: Seq<Option<u64>>, t: Seq<Option<u64>>, n: nat) -> Seq<(u64, u64)>
    decreases n,
{
    if n == 0 {
        Seq::empty()
    } else {
        let p = present_pairs(s, t, (n - 1) as nat);
        if s[n - 1] is Some && t[n - 1] is Some {
            p.push((s[n - 1]->0, t[n - 1]->0))
        } else {
            p
        }
    }
}

/// A buffer of `c` edges fits the accounting and the memory limit.
pub open spec fn admitted(c: nat, limit: Option<usize>) -> bool {
    &&& c <= usize::MAX
    &&& match limit {
        Some(m) => c * 16 <= m,
        None => true,
    }
}

/// The message for a buffer of `c` edges that is not admitted.
pub open spec fn admission_message(c: nat, limit: Option<usize>) -> Seq<char> {
    if c > usize::MAX {
        "CSRBuilderExec edge count overflowed usize accounting"@
    } else if c * 16 > usize::MAX {
        "CSRBuilderExec edge buffer size overflowed usize accounting"@
    } else {
        "CSRBuilderExec edge buffer exceeded memory limit ("@ + decimal(c * 16) + " bytes > "@ + decimal(
            limit->0 as nat,
        ) + " bytes)"@
    }
}

/// The message for a configured column that the input schema lacks.
pub open spec fn missing_column_message(role: Seq<char>, name: Seq<char>) -> Seq<char> {
    role + " column '"@ + name + "' not found in input schema"@
}

/// The message for a configured column of another type than `UInt64`.
pub open spec fn column_type_message(role: Seq<char>, name: Seq<char>) -> Seq<char> {
    role + " column '"@ + name + "' must be UInt64"@
}

/// What `extract_edges` does with `batch` when the edge buffer held
/// `before`: the outcome `r` and the buffer `after`.
///
/// The source and target columns are looked up by name (first match),
/// source first; each must be a `UInt64` column. Then every row with both
/// values present is appended, in row order, as long as the buffer, counted
/// with that edge, stays admitted; the first edge that is not admitted ends
/// the extraction with its message, and the edges before it stay.
pub open spec fn extraction_outcome(
    fields: Seq<Seq<char>>,
    config: CsrBuildConfig,
    batch: InputBatch,
    before: Seq<(u64, u64)>,
    after: Seq<(u64, u64)>,
    r: Result<(), EngineError>,
) -> bool {
    let si = first_match(fields, config.source_column@);
    let ti = first_match(fields, config.target_column@);
    if si is None {
        after == before && r is Err && is_execution(
            r->Err_0,
            missing_column_message("Source"@, config.source_column@),
        )
    } else if ti is None {
        after == before && r is Err && is_execution(
            r->Err_0,
            missing_column_message("Target"@, config.target_column@),
        )
    } else if column_values(batch.columns@[si->0]) is None {
        after == before && r is Err && is_execution(
            r->Err_0,
            column_type_message("Source"@, config.source_column@),
        )
    } else if column_values(batch.columns@[ti->0]) is None {
        after == before && r is Err && is_execution(
            r->Err_0,
            column_type_message("Target"@, config.target_column@),
        )
    } else {
        let p = present_pairs(
            column_values(batch.columns@[si->0])->0,
            column_values(batch.columns@[ti->0])->0,
            batch.num_rows as nat,
        );
        let l = before.len();
        if forall|j: int| 0 <= j < p.len() ==> #[trigger] admitted((l + j + 1) as nat, config.memory_limit) {
            r is Ok && after == before + p
        } else {
            exists|j0: int| #[trigger] stops_at(p, j0, config.memory_limit, before, after, r)
        }
    }
}

/// Extraction of the pairs `p` stopped at the `j0`-th, the first whose
/// edge is not admitted: the pairs before it were appended to `before`.
pub open spec fn stops_at(
    p: Seq<(u64, u64)>,
    j0: int,
    limit: Option<usize>,
    before: Seq<(u64, u64)>,
    after: Seq<(u64, u64)>,
    r: Result<(), EngineError>,
) -> bool {
    let l = before.len();
    &&& 0 <= j0 < p.len()
    &&& !admitted((l + j0 + 1) as nat, limit)
    &&& forall|j: int| 0 <= j < j0 ==> #[trigger] admitted((l + j + 1) as nat, limit)
    &&& after == before + p.take(j0)
    &&& r is Err
    &&& is_execution(r->Err_0, admission_message((l + j0 + 1) as nat, limit))
}

/// Statistics the build operator reports.
#[derive(Debug, Clone, Copy, PartialEq, Eq, Structural)]
pub struct BuildSummary {
    /// Number of nodes of the built graph.
    pub node_count: u64,
    /// Number of edges of the built graph.
    pub edge_count: u64,
    /// Number of shards of the built graph.
    pub shard_count: u64,
}

/// The shard configuration a build operator with `config` builds with.
pub open spec fn core_config(config: CsrBuildConfig) -> crate::csr::CsrBuildConfig {
    crate::csr::CsrBuildConfig { shard_size: config.shard_size, include_weights: false }
}

/// A finished build: the graph and what the operator reports of it.
#[derive(Debug)]
pub struct BuildOutcome {
    /// The built graph.
    pub graph: CsrGraph,
    /// Its statistics.
    pub summary: BuildSummary,
}

/// What the operator answers for a build that gave `gr`.
pub open spec fn summary_of(gr: Result<CsrGraph, GraphError>, r: Result<BuildOutcome, EngineError>) -> bool {
    match gr {
        Ok(g) => {
            &&& r is Ok
            &&& r->Ok_0.graph == g
            &&& r->Ok_0.summary == BuildSummary {
                node_count: g@.node_count as u64,
                edge_count: g@.edge_count as u64,
                shard_count: g.shard_bounds().len() as u64,
            }
        },
        Err(e) => r is Err && is_execution(r->Err_0, "CSR build failed: "@ + graph_error_message(e)),
    }
}

/// Position of `name` among `fields` (first match), as `Schema::index_of`
/// finds it.
pub fn field_index(fields: &Vec<String>, name: &str) -> (r: Option<usize>)
    ensures
        match r {
            Some(k) => first_match(label_views(fields@), name@) == Some(k as int),
            None => first_match(label_views(fields@), name@) is None,
        },
{
    let ghost ls = label_views(fields@);
    let owned = name.to_owned();
    let mut i: usize = 0;
    while i < fields.len()
        invariant
            i <= fields@.len(),
            ls == label_views(fields@),
            owned@ == name@,
            forall|j: int| 0 <= j < i ==> ls[j] != name@,
        decreases fields@.len() - i,
    {
        if fields[i] == owned {
            proof {
                lemma_first_match(ls, name@);
                assert(ls[i as int] == name@);
                match first_match(ls, name@) {
                    Some(k) => {
                        if k < i {
                            assert(ls[k] != name@);
                        }
                    },
                    None => {},
                }
            }
            return Some(i);
        }
        i = i + 1;
    }
    proof {
        lemma_first_match(ls, name@);
        if ls.contains(name@) {
            let k = choose|k: int| 0 <= k < ls.len() && ls[k] == name@;
            assert(ls[k] != name@);
        }
    }
    None
}

proof fn lemma_present_pairs_len(s: Seq<Option<u64>>, t: Seq<Option<u64>>, n: nat)
    ensures
        present_pairs(s, t, n).len() <= n,
    decreases n,
{
    if n > 0 {
        lemma_present_pairs_len(s, t, (n - 1) as nat);
    }
}

/// Bytes of a buffer of `edge_count` edges, if that fits `usize`.
pub fn edge_buffer_bytes(edge_count: usize) -> (r: Result<usize, EngineError>)
    ensures
        edge_count * 16 <= usize::MAX ==> r == Ok::<usize, EngineError>((edge_count * 16) as usize),
        edge_count * 16 > usize::MAX ==> r is Err && is_execution(
            r->Err_0,
            "CSRBuilderExec edge buffer size overflowed usize accounting"@,
        ),
{
    match edge_count.checked_mul(EDGE_BYTES) {
        Some(b) => Ok(b),
        None => {
            let m = String::from_str("CSRBuilderExec edge buffer size overflowed usize accounting");
            proof {
                reveal_strlit("CSRBuilderExec edge buffer size overflowed usize accounting");
            }
            Err(EngineError::Execution(m))
        },
    }
}

/// Checks a buffer of `edge_count` edges against `memory_limit`.
pub fn enforce_memory_limit(memory_limit: Option<usize>, edge_count: usize) -> (r: Result<(), EngineError>)
    ensures
        r is Ok <==> admitted(edge_count as nat, memory_limit),
        r is Err ==> is_execution(r->Err_0, admission_message(edge_count as nat, memory_limit)),
{
    let m = match memory_limit {
        None => {
            return Ok(());
        },
        Some(m) => m,
    };
    let bytes = match edge_buffer_bytes(edge_count) {
        Ok(b) => b,
        Err(e) => {
            return Err(e);
        },
    };
    if bytes > m {
        let mut msg = String::from_str("CSRBuilderExec edge buffer exceeded memory limit (");
        msg.append(u64_to_decimal(bytes as u64).as_str());
        msg.append(" bytes > ");
        msg.append(u64_to_decimal(m as u64).as_str());
        msg.append(" bytes)");
        proof {
            reveal_strlit("CSRBuilderExec edge buffer exceeded memory limit (");
            reveal_strlit(" bytes > ");
            reveal_strlit(" bytes)");
        }
        return Err(EngineError::Execution(msg));
    }
    Ok(())
}

/// Rejects any output partition but 0 and any input with more than one
/// partition.
pub fn check_build_partitions(partition: usize, input_partitions: usize) -> (r: Result<(), EngineError>)
    ensures
        partition != 0 ==> r is Err && is_execution(
            r->Err_0,
            "CSRBuilderExec produces a single output partition, but partition "@ + decimal(
                partition as nat,
            ) + " was requested"@,
        ),
        partition == 0 && input_partitions != 1 ==> r is Err && is_execution(
            r->Err_0,
            "CSRBuilderExec requires a single input partition, but the input has "@ + decimal(
                input_partitions as nat,
            ) + " partitions; coalesce the input before execution"@,
        ),
        partition == 0 && input_partitions == 1 ==> r is Ok,
{
    if partition != 0 {
        let mut msg = String::from_str("CSRBuilderExec produces a single output partition, but partition ");
        msg.append(u64_to_decimal(partition as u64).as_str());
        msg.append(" was requested");
        proof {
            reveal_strlit("CSRBuilderExec produces a single output partition, but partition ");
            reveal_strlit(" was requested");
        }
        return Err(EngineError::Execution(msg));
    }
    if input_partitions != 1 {
        let mut msg = String::from_str("CSRBuilderExec requires a single input partition, but the input has ");
        msg.append(u64_to_decimal(input_partitions as u64).as_str());
        msg.append(" partitions; coalesce the input before execution");
        proof {
            reveal_strlit("CSRBuilderExec requires a single input partition, but the input has ");
            reveal_strlit(" partitions; coalesce the input before execution");
        }
        return Err(EngineError::Execution(msg));
    }
    Ok(())
}

/// State of the CSR build operator's output stream: the configuration,
/// the input schema's field names, and the edges collected so far.
#[derive(Debug)]
pub struct CsrBuildStream {
    config: CsrBuildConfig,
    input_fields: Vec<String>,
    edges: Vec<(u64, u64)>,
    finished: bool,
}

fn column_message(role: &str, name: &String, tail: &str) -> (r: String)
    ensures
        r@ == role@ + " column '"@ + name@ + tail@,
{
    let mut msg = String::from_str(role);
    msg.append(" column '");
    msg.append(name.as_str());
    msg.append(tail);
    proof {
        reveal_strlit(" column '");
    }
    msg
}

impl CsrBuildStream {
    /// The configuration.
    pub closed spec fn spec_config(&self) -> CsrBuildConfig {
        self.config
    }

    /// The input schema's field names.
    pub closed spec fn spec_fields(&self) -> Seq<Seq<char>> {
        label_views(self.input_fields@)
    }

    /// The edges collected so far.
    pub closed spec fn spec_edges(&self) -> Seq<(u64, u64)> {
        self.edges@
    }

    /// Whether the build has been reported.
    pub closed spec fn spec_finished(&self) -> bool {
        self.finished
    }

    /// Creates the stream state for an input with the given field names.
    pub fn new(config: CsrBuildConfig, input_fields: Vec<String>) -> (r: Self)
        ensures
            r.spec_config() == config,
            r.spec_fields() == label_views(input_fields@),
            r.spec_edges() == Seq::<(u64, u64)>::empty(),
            !r.spec_finished(),
    {
        CsrBuildStream { config, input_fields, edges: Vec::new(), finished: false }
    }

    /// The edges collected so far.
    pub fn edges(&self) -> (r: &[(u64, u64)])
        ensures
            r@ == self.spec_edges(),
    {
        self.edges.as_slice()
    }

    /// Whether the build has been reported; the stream then ends.
    pub fn is_finished(&self) -> (r: bool)
        ensures
            r == self.spec_finished(),
    {
        self.finished
    }

    /// Appends the edges of one input batch; see `extraction_outcome`.
    pub fn extract_edges(&mut self, batch: &InputBatch) -> (r: Result<(), EngineError>)
        requires
            batch_wf(*batch),
            columns_cover(old(self).spec_fields(), old(self).spec_config(), *batch),
        ensures
            final(self).spec_config() == old(self).spec_config(),
            final(self).spec_fields() == old(self).spec_fields(),
            final(self).spec_finished() == old(self).spec_finished(),
            extraction_outcome(
                old(self).spec_fields(),
                old(self).spec_config(),
                *batch,
                old(self).spec_edges(),
                final(self).spec_edges(),
                r,
            ),
    {
        let ghost fields = label_views(self.input_fields@);
        let ghost before = self.edges@;
        proof {
            lemma_first_match(fields, self.config.source_column@);
            lemma_first_match(fields, self.config.target_column@);
            reveal_strlit("Source");
            reveal_strlit("Target");
            reveal_strlit("' not found in input schema");
            reveal_strlit("' must be UInt64");
        }
        let si = match field_index(&self.input_fields, self.config.source_column.as_str()) {
            Some(i) => i,
            None => {
                let msg = column_message("Source", &self.config.source_column, "' not found in input schema");
                return Err(EngineError::Execution(msg));
            },
        };
        let ti = match field_index(&self.input_fields, self.config.target_column.as_str()) {
            Some(i) => i,
            None => {
                let msg = column_message("Target", &self.config.target_column, "' not found in input schema");
                return Err(EngineError::Execution(msg));
            },
        };
        let sources = match &batch.columns[si] {
            InputColumn::UInt64(v) => v,
            InputColumn::Other => {
                let msg = column_message("Source", &self.config.source_column, "' must be UInt64");
                proof {
                    assert(first_match(fields, self.config.source_column@) == Some(si as int));
                    assert(first_match(fields, self.config.target_column@) == Some(ti as int));
                    assert(column_values(batch.columns@[si as int]) is None);
                    assert(msg@ == column_type_message("Source"@, self.config.source_column@));
                }
                return Err(EngineError::Execution(msg));
            },
        };
        let targets = match &batch.columns[ti] {
            InputColumn::UInt64(v) => v,
            InputColumn::Other => {
                let msg = column_message("Target", &self.config.target_column, "' must be UInt64");
                return Err(EngineError::Execution(msg));
            },
        };
        proof {
            assert(column_values(batch.columns@[si as int]) == Some(sources@));
            assert(column_values(batch.columns@[ti as int]) == Some(targets@));
            assert(sources@.len() == batch.num_rows);
            assert(targets@.len() == batch.num_rows);
        }
        let ghost s = sources@;
        let ghost t = targets@;
        let ghost l = before.len();
        let limit = self.config.memory_limit;
        let n = batch.num_rows;
        let mut i: usize = 0;
        while i < n
            invariant
                i <= n,
                n == batch.num_rows,
                s == sources@,
                t == targets@,
                s.len() == n,
                t.len() == n,
                l == before.len(),
                limit == self.config.memory_limit,
                self.edges@ == before + present_pairs(s, t, i as nat),
                forall|j: int|
                    0 <= j < present_pairs(s, t, i as nat).len() ==> #[trigger] admitted(
                        (l + j + 1) as nat,
                        limit,
                    ),
                self.config == old(self).config,
                self.input_fields == old(self).input_fields,
                self.finished == old(self).finished,
                before == old(self).edges@,
                fields == label_views(self.input_fields@),
                first_match(fields, self.config.source_column@) == Some(si as int),
                first_match(fields, self.config.target_column@) == Some(ti as int),
                column_values(batch.columns@[si as int]) == Some(s),
                column_values(batch.columns@[ti as int]) == Some(t),
            decreases n - i,
        {
            let ghost p = present_pairs(s, t, i as nat);
            proof {
                assert(present_pairs(s, t, (i + 1) as nat) == if s[i as int] is Some && t[i as int] is Some {
                    p.push((s[i as int]->0, t[i as int]->0))
                } else {
                    p
                });
            }
            match (sources[i], targets[i]) {
                (Some(a), Some(b)) => {
                    let len = self.edges.len();
                    let c = match len.checked_add(1) {
                        Some(c) => c,
                        None => {
                            let msg = String::from_str("CSRBuilderExec edge count overflowed usize accounting");
                            proof {
                                reveal_strlit("CSRBuilderExec edge count overflowed usize accounting");
                                let pp = p.push((a, b));
                                let j0 = p.len() as int;
                                assert(self.edges@ == before + pp.take(j0)) by {
                                    assert(pp.take(j0) =~= p);
                                }
                                lemma_present_pairs_prefix(s, t, (i + 1) as nat, n as nat);
                                assert(!admitted((l + j0 + 1) as nat, limit));
                                assert forall|j: int| 0 <= j < j0 implies #[trigger] admitted(
                                    (l + j + 1) as nat,
                                    limit,
                                ) by {}
                                let full = present_pairs(s, t, n as nat);
                                assert(full.take(j0) =~= pp.take(j0)) by {
                                    assert(full.take(j0 + 1) == pp);
                                }
                                assert(!(forall|j: int|
                                    0 <= j < full.len() ==> #[trigger] admitted((l + j + 1) as nat, limit)));
                                assert(stops_at(full, j0, limit, before, self.edges@, Err::<(), EngineError>(EngineError::Execution(msg))));
                            }
                            return Err(EngineError::Execution(msg));
                        },
                    };
                    match enforce_memory_limit(limit, c) {
                        Ok(()) => {},
                        Err(e) => {
                            proof {
                                let pp = p.push((a, b));
                                let j0 = p.len() as int;
                                assert(self.edges@ == before + pp.take(j0)) by {
                                    assert(pp.take(j0) =~= p);
                                }
                                lemma_present_pairs_prefix(s, t, (i + 1) as nat, n as nat);
                                let full = present_pairs(s, t, n as nat);
                                assert(full.take(j0) =~= pp.take(j0)) by {
                                    assert(full.take(j0 + 1) == pp);
                                }
                                assert(!admitted((l + j0 + 1) as nat, limit));
                                assert(full[j0] == pp[j0]);
                                assert(!(forall|j: int|
                                    0 <= j < full.len() ==> #[trigger] admitted((l + j + 1) as nat, limit)));
                                assert(stops_at(full, j0, limit, before, self.edges@, Err::<(), EngineError>(e)));
                            }
                            return Err(e);
                        },
                    }
                    self.edges.push((a, b));
                    proof {
                        assert(self.edges@ =~= before + p.push((a, b)));
                    }
                },
                _ => {},
            }
            i = i + 1;
        }
        proof {
            let p = present_pairs(s, t, n as nat);
            assert(self.edges@ == before + p);
            assert(first_match(fields, self.config.source_column@) == Some(si as int));
            assert(first_match(fields, self.config.target_column@) == Some(ti as int));
            assert(column_values(batch.columns@[si as int]) == Some(s));
            assert(column_values(batch.columns@[ti as int]) == Some(t));
            assert(forall|j: int| 0 <= j < p.len() ==> #[trigger] admitted((l + j + 1) as nat, limit));
        }
        Ok(())
    }

    /// Builds the graph from the collected edges, which leave the buffer,
    /// and reports its statistics; the stream is finished once a build
    /// succeeds.
    pub fn build_csr(&mut self) -> (r: Result<BuildOutcome, EngineError>)
        ensures
            final(self).spec_config() == old(self).spec_config(),
            final(self).spec_fields() == old(self).spec_fields(),
            final(self).spec_edges() == Seq::<(u64, u64)>::empty(),
            final(self).spec_finished() == (old(self).spec_finished() || r is Ok),
            exists|gr: Result<CsrGraph, GraphError>|
                build_result(old(self).spec_edges(), Seq::empty(), core_config(old(self).spec_config()), gr)
                    && summary_of(gr, r),
    {
        let mut edges: Vec<(u64, u64)> = Vec::new();
        std::mem::swap(&mut edges, &mut self.edges);
        let ghost taken = edges@;
        let builder = CsrBuilder::new().with_shard_size(self.config.shard_size).with_edges(edges);
        proof {
            assert(builder.spec_edges() =~= taken);
            assert(builder.spec_config() == core_config(self.config));
        }
        let gr = builder.build();
        match gr {
            Ok(g) => {
                let s = BuildSummary {
                    node_count: g.node_count() as u64,
                    edge_count: g.edge_count() as u64,
                    shard_count: g.shard_count() as u64,
                };
                self.finished = true;
                let r = Ok(BuildOutcome { graph: g, summary: s });
                proof {
                    assert(summary_of(Ok(g), r));
                }
                r
            },
            Err(e) => {
                let msg = concat("CSR build failed: ", e.to_string().as_str());
                let r = Err(EngineError::Execution(msg));
                proof {
                    reveal_strlit("CSR build failed: ");
                    assert(summary_of(Err(e), r));
                }
                r
            },
        }
    }
}

proof fn lemma_present_pairs_prefix(s: Seq<Option<u64>>, t: Seq<Option<u64>>, a: nat, b: nat)
    requires
        a <= b,
    ensures
        present_pairs(s, t, b).len() >= present_pairs(s, t, a).len(),
        present_pairs(s, t, b).take(present_pairs(s, t, a).len() as int) == present_pairs(s, t, a),
    decreases b - a,
{
    if a < b {
        lemma_present_pairs_prefix(s, t, a, (b - 1) as nat);
        let pa = present_pairs(s, t, a);
        let pb1 = present_pairs(s, t, (b - 1) as nat);
        let pb = present_pairs(s, t, b);
        assert(pb.take(pa.len() as int) =~= pb1.take(pa.len() as int));
    } else {
        let pa = present_pairs(s, t, a);
        assert(pa.take(pa.len() as int) =~= pa);
    }
}

} // verus!
