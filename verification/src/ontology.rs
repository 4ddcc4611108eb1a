//! Ontology schemas: how relational tables project onto graph nodes and
//! edges, with their structural validation.

use vstd::prelude::*;

verus! {

#[verifier::external_type_specification]
#[verifier::external_body]
pub struct ExIoError(std::io::Error);

// ---------------------------------------------------------------------
// Errors
// ---------------------------------------------------------------------

/// Errors that can occur during ontology parsing and validation.
#[derive(Debug)]
pub enum OntologyError {
    /// TOML parse error.
    ParseError {
        /// Error message.
        message: String,
    },
    /// JSON parse error.
    JsonError {
        /// Error message.
        message: String,
    },
    /// Missing required field.
    MissingField {
        /// Field name.
        field: String,
        /// Context (e.g., "node 'User'").
        context: String,
    },
    /// Dangling edge reference.
    DanglingEdge {
        /// Edge label.
        edge: String,
        /// Referenced node label.
        node: String,
    },
    /// Duplicate label.
    DuplicateLabel {
        /// "node" or "edge".
        kind: String,
        /// The duplicate label.
        label: String,
    },
    /// Type mismatch.
    TypeMismatch {
        /// Transform name.
        transform: String,
        /// Column name.
        column: String,
        /// Column type.
        column_type: String,
    },
    /// Computed property target is invalid.
    InvalidComputedPropertyTarget {
        /// Computed property name.
        property: String,
        /// Referenced node label, if any.
        node: Option<String>,
        /// Referenced edge label, if any.
        edge: Option<String>,
    },
    /// IO error.
    Io(std::io::Error),
}

/// The error code of each variant.
pub open spec fn ontology_error_code(e: OntologyError) -> Seq<char> {
    match e {
        OntologyError::ParseError { .. } => "FG-ONT-E001"@,
        OntologyError::JsonError { .. } => "FG-ONT-E001"@,
        OntologyError::MissingField { .. } => "FG-ONT-E002"@,
        OntologyError::DanglingEdge { .. } => "FG-ONT-E003"@,
        OntologyError::DuplicateLabel { .. } => "FG-ONT-E004"@,
        OntologyError::TypeMismatch { .. } => "FG-ONT-E005"@,
        OntologyError::InvalidComputedPropertyTarget { .. } => "FG-ONT-E007"@,
        OntologyError::Io(_) => "FG-ONT-E006"@,
    }
}

impl OntologyError {
    /// Returns the error code.
    pub fn code(&self) -> (r: &'static str)
        ensures
            r@ == ontology_error_code(*self),
    {
        match self {
            OntologyError::ParseError { .. } => "FG-ONT-E001",
            OntologyError::JsonError { .. } => "FG-ONT-E001",
            OntologyError::MissingField { .. } => "FG-ONT-E002",
            OntologyError::DanglingEdge { .. } => "FG-ONT-E003",
            OntologyError::DuplicateLabel { .. } => "FG-ONT-E004",
            OntologyError::TypeMismatch { .. } => "FG-ONT-E005",
            OntologyError::InvalidComputedPropertyTarget { .. } => "FG-ONT-E007",
            OntologyError::Io(_) => "FG-ONT-E006",
        }
    }
}

// ---------------------------------------------------------------------
// Schema
// ---------------------------------------------------------------------

/// Ontology metadata.
#[derive(Debug, Clone)]
pub struct OntologyMeta {
    /// Ontology name.
    pub name: String,
    /// Ontology version.
    pub version: String,
    /// Description.
    pub description: String,
}

impl Default for OntologyMeta {
    fn default() -> (r: Self)
        ensures
            r.name@ == Seq::<char>::empty(),
            r.version@ == Seq::<char>::empty(),
            r.description@ == Seq::<char>::empty(),
    {
        OntologyMeta { name: String::new(), version: String::new(), description: String::new() }
    }
}

/// Node ID type.
#[derive(Debug, Clone, Copy, PartialEq, Eq, Structural)]
pub enum IdType {
    /// 32-bit unsigned integer.
    U32,
    /// 64-bit unsigned integer.
    U64,
    /// 128-bit unsigned integer (for UUIDs).
    U128,
    /// String IDs (will be hashed).
    String,
}

impl Default for IdType {
    fn default() -> (r: Self)
        ensures
            r == IdType::U64,
    {
        IdType::U64
    }
}

/// Edge direction mode.
#[derive(Debug, Clone, Copy, PartialEq, Eq, Structural)]
pub enum EdgeDirection {
    /// Edges have a direction.
    Directed,
    /// Edges are bidirectional.
    Undirected,
}

impl Default for EdgeDirection {
    fn default() -> (r: Self)
        ensures
            r == EdgeDirection::Directed,
    {
        EdgeDirection::Directed
    }
}

/// Global ontology settings.
#[derive(Debug, Clone, Copy, PartialEq, Eq, Structural)]
pub struct OntologySettings {
    /// Default ID type for nodes.
    pub default_node_id_type: IdType,
    /// Edge direction mode.
    pub edge_direction: EdgeDirection,
    /// Allow self-loops.
    pub allow_self_loops: bool,
    /// Allow parallel edges.
    pub allow_parallel_edges: bool,
}

impl Default for OntologySettings {
    fn default() -> (r: Self)
        ensures
            r.default_node_id_type == IdType::U64,
            r.edge_direction == EdgeDirection::Directed,
            !r.allow_self_loops,
            r.allow_parallel_edges,
    {
        OntologySettings {
            default_node_id_type: IdType::U64,
            edge_direction: EdgeDirection::Directed,
            allow_self_loops: false,
            allow_parallel_edges: true,
        }
    }
}

/// ID column specification.
#[derive(Debug, Clone)]
pub enum IdColumn {
    /// Single column ID.
    Single(String),
    /// Composite key.
    Composite {
        /// Column names.
        columns: Vec<String>,
        /// Separator for concatenation.
        separator: String,
    },
}

impl IdColumn {
    /// Returns the column names.
    pub fn columns(&self) -> (r: Vec<&str>)
        ensures
            r@.len() == match self {
                IdColumn::Single(_) => 1,
                IdColumn::Composite { columns, .. } => columns@.len(),
            },
            forall|i: int|
                0 <= i < r@.len() ==> (#[trigger] r@[i])@ == match self {
                    IdColumn::Single(c) => c@,
                    IdColumn::Composite { columns, .. } => columns@[i]@,
                },
    {
        match self {
            IdColumn::Single(col) => {
                let mut v: Vec<&str> = Vec::new();
                v.push(col.as_str());
                v
            },
            IdColumn::Composite { columns, .. } => {
                let mut v: Vec<&str> = Vec::new();
                let mut i: usize = 0;
                while i < columns.len()
                    invariant
                        i <= columns@.len(),
                        v@.len() == i,
                        forall|j: int| 0 <= j < i ==> (#[trigger] v@[j])@ == columns@[j]@,
                    decreases columns@.len() - i,
                {
                    v.push(columns[i].as_str());
                    i = i + 1;
                }
                v
            },
        }
    }
}

/// ID transformation strategy.
#[derive(Debug, Clone, Copy, PartialEq, Eq, Structural)]
pub enum IdTransform {
    /// Pass through numeric IDs unchanged.
    Passthrough,
    /// Hash string to u64 (FNV-1a).
    HashU64,
    /// Hash string to u32 (FNV-1a).
    HashU32,
    /// Convert UUID to u128.
    UuidToU128,
    /// Extract numeric portion from string.
    ExtractNumeric,
}

impl Default for IdTransform {
    fn default() -> (r: Self)
        ensures
            r == IdTransform::Passthrough,
    {
        IdTransform::Passthrough
    }
}

/// Node definition.
#[derive(Debug, Clone)]
pub struct NodeDefinition {
    /// Node label (e.g., "User", "Account").
    pub label: String,
    /// Source table (fully qualified).
    pub source: String,
    /// ID column(s).
    pub id_column: IdColumn,
    /// ID transformation.
    pub id_transform: IdTransform,
    /// Properties to include.
    pub properties: Vec<String>,
    /// Optional filter predicate (SQL).
    pub filter: Option<String>,
}

/// Edge definition.
#[derive(Debug, Clone)]
pub struct EdgeDefinition {
    /// Edge label (e.g., "BELONGS_TO", "CAN_ASSUME").
    pub label: String,
    /// Source table for edge data.
    pub source: String,
    /// Source node label.
    pub from_node: String,
    /// Column containing source node ID.
    pub from_column: String,
    /// Target node label.
    pub to_node: String,
    /// Column containing target node ID.
    pub to_column: String,
    /// Edge properties to include.
    pub properties: Vec<String>,
    /// Weight column (for weighted graphs).
    pub weight_column: Option<String>,
    /// Default weight if column is NULL, as the bits of an `f64`.
    pub weight_default: u64,
    /// Whether edge is implicit (derived from node table).
    pub implicit: bool,
    /// Skip edges with NULL targets.
    pub skip_null_targets: bool,
    /// Temporal: valid-from column.
    pub valid_from_column: Option<String>,
    /// Temporal: valid-to column.
    pub valid_to_column: Option<String>,
    /// Partition column hint.
    pub partition_column: Option<String>,
}

/// Computed property definition.
#[derive(Debug, Clone)]
pub struct ComputedProperty {
    /// Property name.
    pub name: String,
    /// Node label (mutually exclusive with edge).
    pub node: Option<String>,
    /// Edge label (mutually exclusive with node).
    pub edge: Option<String>,
    /// SQL expression to compute.
    pub expression: String,
    /// Whether to compute at build time.
    pub materialized: bool,
}

/// Complete ontology definition.
#[derive(Debug, Clone)]
pub struct Ontology {
    /// Ontology metadata.
    pub ontology: OntologyMeta,
    /// Global settings.
    pub settings: OntologySettings,
    /// Node definitions.
    pub nodes: Vec<NodeDefinition>,
    /// Edge definitions.
    pub edges: Vec<EdgeDefinition>,
    /// Computed properties.
    pub properties: Vec<ComputedProperty>,
}

/// The node labels, in order.
pub open spec fn node_labels_of(o: Ontology) -> Seq<Seq<char>> {
    o.nodes@.map_values(|n: NodeDefinition| n.label@)
}

/// The edge labels, in order.
pub open spec fn edge_labels_of(o: Ontology) -> Seq<Seq<char>> {
    o.edges@.map_values(|e: EdgeDefinition| e.label@)
}

/// Index of the first entry of `s` equal to `x`, if any.
pub open spec fn first_match(s: Seq<Seq<char>>, x: Seq<char>) -> Option<int>
    decreases s.len(),
{
    if s.len() == 0 {
        None
    } else {
        match first_match(s.drop_last(), x) {
            Some(i) => Some(i),
            None => if s.last() == x {
                Some(s.len() - 1)
            } else {
                None
            },
        }
    }
}

pub(crate) proof fn lemma_first_match(s: Seq<Seq<char>>, x: Seq<char>)
    ensures
        first_match(s, x) is Some <==> s.contains(x),
        first_match(s, x) matches Some(i) ==> 0 <= i < s.len() && s[i] == x && forall|j: int|
            0 <= j < i ==> s[j] != x,
    decreases s.len(),
{
    if s.len() > 0 {
        let p = s.drop_last();
        lemma_first_match(p, x);
        if s.contains(x) && !p.contains(x) {
            let j = choose|j: int| 0 <= j < s.len() && s[j] == x;
            if j < p.len() {
                assert(p[j] == x);
            }
        }
        if p.contains(x) {
            let j = choose|j: int| 0 <= j < p.len() && p[j] == x;
            assert(s[j] == x);
        }
        match first_match(p, x) {
            Some(i) => {
                assert forall|j: int| 0 <= j < i implies s[j] != x by {
                    assert(s[j] == p[j]);
                }
                assert(s[i] == p[i]);
            },
            None => {
                if s.last() == x {
                    assert forall|j: int| 0 <= j < s.len() - 1 implies s[j] != x by {
                        assert(s[j] == p[j]);
                        if p[j] == x {
                            assert(p.contains(x));
                        }
                    }
                }
            },
        }
    }
}

impl Ontology {
    /// Returns the ontology name.
    pub fn name(&self) -> (r: &str)
        ensures
            r@ == self.ontology.name@,
    {
        self.ontology.name.as_str()
    }

    /// Returns the ontology version.
    pub fn version(&self) -> (r: &str)
        ensures
            r@ == self.ontology.version@,
    {
        self.ontology.version.as_str()
    }

    /// Returns node labels, in order.
    pub fn node_labels(&self) -> (r: Vec<&str>)
        ensures
            r@.map_values(|s: &str| s@) == node_labels_of(*self),
    {
        let mut v: Vec<&str> = Vec::new();
        let mut i: usize = 0;
        while i < self.nodes.len()
            invariant
                i <= self.nodes@.len(),
                v@.len() == i,
                forall|j: int| 0 <= j < i ==> (#[trigger] v@[j])@ == self.nodes@[j].label@,
            decreases self.nodes@.len() - i,
        {
            v.push(self.nodes[i].label.as_str());
            i = i + 1;
        }
        proof {
            assert(v@.map_values(|s: &str| s@) =~= node_labels_of(*self));
        }
        v
    }

    /// Returns edge labels, in order.
    pub fn edge_labels(&self) -> (r: Vec<&str>)
        ensures
            r@.map_values(|s: &str| s@) == edge_labels_of(*self),
    {
        let mut v: Vec<&str> = Vec::new();
        let mut i: usize = 0;
        while i < self.edges.len()
            invariant
                i <= self.edges@.len(),
                v@.len() == i,
                forall|j: int| 0 <= j < i ==> (#[trigger] v@[j])@ == self.edges@[j].label@,
            decreases self.edges@.len() - i,
        {
            v.push(self.edges[i].label.as_str());
            i = i + 1;
        }
        proof {
            assert(v@.map_values(|s: &str| s@) =~= edge_labels_of(*self));
        }
        v
    }

    /// Finds the first node definition with the given label.
    pub fn node(&self, label: &str) -> (r: Option<&NodeDefinition>)
        ensures
            r matches Some(n) ==> exists|i: int|
                Some(i) == first_match(node_labels_of(*self), label@) && *n == self.nodes@[i],
            r is None ==> first_match(node_labels_of(*self), label@) is None,
    {
        let key = label.to_owned();
        let ghost ls = node_labels_of(*self);
        proof {
            lemma_first_match(ls, key@);
        }
        let mut i: usize = 0;
        while i < self.nodes.len()
            invariant
                i <= self.nodes@.len(),
                ls == node_labels_of(*self),
                key@ == label@,
                forall|j: int| 0 <= j < i ==> ls[j] != key@,
                first_match(ls, key@) is Some <==> ls.contains(key@),
                first_match(ls, key@) matches Some(k) ==> 0 <= k < ls.len() && ls[k] == key@ && forall|j: int|
                    0 <= j < k ==> ls[j] != key@,
            decreases self.nodes@.len() - i,
        {
            if self.nodes[i].label == key {
                proof {
                    assert(ls[i as int] == key@);
                    assert(ls.contains(key@));
                    let k = first_match(ls, key@)->0;
                    if k < i {
                        assert(ls[k] != key@);
                    }
                    if k > i {
                        assert(ls[i as int] != key@);
                    }
                }
                return Some(&self.nodes[i]);
            }
            i = i + 1;
        }
        proof {
            if ls.contains(key@) {
                let j = choose|j: int| 0 <= j < ls.len() && ls[j] == key@;
            }
        }
        None
    }

    /// Finds the first edge definition with the given label.
    pub fn edge(&self, label: &str) -> (r: Option<&EdgeDefinition>)
        ensures
            r matches Some(e) ==> exists|i: int|
                Some(i) == first_match(edge_labels_of(*self), label@) && *e == self.edges@[i],
            r is None ==> first_match(edge_labels_of(*self), label@) is None,
    {
        let key = label.to_owned();
        let ghost ls = edge_labels_of(*self);
        proof {
            lemma_first_match(ls, key@);
        }
        let mut i: usize = 0;
        while i < self.edges.len()
            invariant
                i <= self.edges@.len(),
                ls == edge_labels_of(*self),
                key@ == label@,
                forall|j: int| 0 <= j < i ==> ls[j] != key@,
                first_match(ls, key@) is Some <==> ls.contains(key@),
                first_match(ls, key@) matches Some(k) ==> 0 <= k < ls.len() && ls[k] == key@ && forall|j: int|
                    0 <= j < k ==> ls[j] != key@,
            decreases self.edges@.len() - i,
        {
            if self.edges[i].label == key {
                proof {
                    assert(ls[i as int] == key@);
                    assert(ls.contains(key@));
                    let k = first_match(ls, key@)->0;
                    if k < i {
                        assert(ls[k] != key@);
                    }
                    if k > i {
                        assert(ls[i as int] != key@);
                    }
                }
                return Some(&self.edges[i]);
            }
            i = i + 1;
        }
        proof {
            if ls.contains(key@) {
                let j = choose|j: int| 0 <= j < ls.len() && ls[j] == key@;
            }
        }
        None
    }
}

// ---------------------------------------------------------------------
// Validation
// ---------------------------------------------------------------------

/// Validation error (blocking).
#[derive(Debug, Clone)]
pub struct ValidationError {
    /// Error code.
    pub code: &'static str,
    /// Error message.
    pub message: String,
}

/// Validation warning (non-blocking).
#[derive(Debug, Clone)]
pub struct ValidationWarning {
    /// Warning code.
    pub code: &'static str,
    /// Warning message.
    pub message: String,
}

/// Result of ontology validation.
#[derive(Debug, Clone)]
pub struct ValidationResult {
    /// Errors (must be fixed).
    pub errors: Vec<ValidationError>,
    /// Warnings (should be fixed).
    pub warnings: Vec<ValidationWarning>,
}

impl Default for ValidationResult {
    fn default() -> (r: Self)
        ensures
            r.errors@.len() == 0,
            r.warnings@.len() == 0,
    {
        ValidationResult { errors: Vec::new(), warnings: Vec::new() }
    }
}

impl ValidationResult {
    /// Returns true if validation passed (no errors).
    pub fn is_valid(&self) -> (r: bool)
        ensures
            r == (self.errors@.len() == 0),
    {
        self.errors.len() == 0
    }

    /// Returns true if there are any warnings.
    pub fn has_warnings(&self) -> (r: bool)
        ensures
            r == (self.warnings@.len() > 0),
    {
        self.warnings.len() > 0
    }
}

/// The findings of a list of errors.
pub open spec fn error_findings(es: Seq<ValidationError>) -> Seq<(Seq<char>, Seq<char>)> {
    es.map_values(|e: ValidationError| (e.code@, e.message@))
}

/// The findings of a list of warnings.
pub open spec fn warning_findings(ws: Seq<ValidationWarning>) -> Seq<(Seq<char>, Seq<char>)> {
    ws.map_values(|w: ValidationWarning| (w.code@, w.message@))
}

/// One error for each label that repeats an earlier one, in order.
pub open spec fn duplicate_findings(labels: Seq<Seq<char>>, kind: Seq<char>) -> Seq<(Seq<char>, Seq<char>)>
    decreases labels.len(),
{
    if labels.len() == 0 {
        Seq::empty()
    } else {
        let rest = duplicate_findings(labels.drop_last(), kind);
        if labels.drop_last().contains(labels.last()) {
            rest.push(("FG-ONT-E004"@, "Duplicate "@ + kind + " label '"@ + labels.last() + "'"@))
        } else {
            rest
        }
    }
}

/// The error for an edge that references an undefined node.
pub open spec fn dangling_finding(edge: Seq<char>, node: Seq<char>) -> (Seq<char>, Seq<char>) {
    ("FG-ONT-E003"@, "Edge '"@ + edge + "' references undefined node '"@ + node + "'"@)
}

/// One error for each edge end (source, then target) that names no node
/// of `nodes`, edge by edge.
pub open spec fn dangling_findings(edges: Seq<EdgeDefinition>, nodes: Seq<Seq<char>>) -> Seq<(Seq<char>, Seq<char>)>
    decreases edges.len(),
{
    if edges.len() == 0 {
        Seq::empty()
    } else {
        let rest = dangling_findings(edges.drop_last(), nodes);
        let e = edges.last();
        let r1 = if !nodes.contains(e.from_node@) {
            rest.push(dangling_finding(e.label@, e.from_node@))
        } else {
            rest
        };
        if !nodes.contains(e.to_node@) {
            r1.push(dangling_finding(e.label@, e.to_node@))
        } else {
            r1
        }
    }
}

/// One warning for each temporal edge without a partition hint.
pub open spec fn temporal_findings(edges: Seq<EdgeDefinition>) -> Seq<(Seq<char>, Seq<char>)>
    decreases edges.len(),
{
    if edges.len() == 0 {
        Seq::empty()
    } else {
        let rest = temporal_findings(edges.drop_last());
        let e = edges.last();
        if e.valid_from_column is Some && e.partition_column is None {
            rest.push(
                (
                    "FG-ONT-W002"@,
                    "Temporal edge '"@ + e.label@ + "' has no partition hint; full scans may occur"@,
                ),
            )
        } else {
            rest
        }
    }
}

/// The errors that validating `o` finds, in order: repeated node labels,
/// repeated edge labels, then edge ends naming no node.
pub open spec fn validation_errors(o: Ontology) -> Seq<(Seq<char>, Seq<char>)> {
    duplicate_findings(node_labels_of(o), "node"@) + duplicate_findings(edge_labels_of(o), "edge"@)
        + dangling_findings(o.edges@, node_labels_of(o))
}

/// The views of a sequence of strings.
pub open spec fn label_views(v: Seq<String>) -> Seq<Seq<char>> {
    v.map_values(|s: String| s@)
}

/// Whether `v` holds a string equal to `key`.
fn holds_label(v: &Vec<String>, key: &String) -> (r: bool)
    ensures
        r == label_views(v@).contains(key@),
{
    let ghost ls = label_views(v@);
    let mut i: usize = 0;
    while i < v.len()
        invariant
            i <= v@.len(),
            ls == label_views(v@),
            forall|j: int| 0 <= j < i ==> ls[j] != key@,
        decreases v@.len() - i,
    {
        if v[i] == *key {
            proof {
                assert(ls[i as int] == key@);
            }
            return true;
        }
        i = i + 1;
    }
    false
}

/// Appends the duplicate-label errors of `labels` to `errors`, recording
/// every label in `seen`.
fn check_duplicates(labels: &Vec<String>, kind: &str, errors: &mut Vec<ValidationError>, seen: &mut Vec<String>)
    requires
        old(seen)@.len() == 0,
    ensures
        error_findings(final(errors)@) == error_findings(old(errors)@) + duplicate_findings(
            label_views(labels@),
            kind@,
        ),
        forall|x: Seq<char>| #[trigger] label_views(final(seen)@).contains(x) <==> label_views(labels@).contains(x),
{
    let ghost e0 = error_findings(errors@);
    let ghost ls = label_views(labels@);
    let mut i: usize = 0;
    while i < labels.len()
        invariant
            i <= labels@.len(),
            ls == label_views(labels@),
            error_findings(errors@) == e0 + duplicate_findings(ls.take(i as int), kind@),
            forall|x: Seq<char>| #[trigger] label_views(seen@).contains(x) <==> ls.take(i as int).contains(x),
        decreases labels@.len() - i,
    {
        let label = &labels[i];
        let ghost before = label_views(seen@);
        let ghost errs0 = errors@;
        proof {
            assert(ls.take(i + 1).drop_last() =~= ls.take(i as int));
            assert(ls.take(i + 1).last() == label@);
        }
        if holds_label(seen, label) {
            let mut message = String::from_str("Duplicate ");
            message.append(kind);
            message.append(" label '");
            message.append(label.as_str());
            message.append("'");
            errors.push(ValidationError { code: "FG-ONT-E004", message });
            proof {
                reveal_strlit("FG-ONT-E004");
                assert(error_findings(errors@) =~= error_findings(errs0).push(
                    ("FG-ONT-E004"@, "Duplicate "@ + kind@ + " label '"@ + label@ + "'"@),
                ));
            }
        } else {
            seen.push(label.clone());
            proof {
                assert(label_views(seen@) =~= before.push(label@));
                assert forall|x: Seq<char>| #[trigger] label_views(seen@).contains(x) <==> ls.take(i + 1).contains(x) by {
                    lemma_push_seq(before, label@, x);
                    lemma_push_seq(ls.take(i as int), label@, x);
                }
            }
        }
        proof {
            if before.contains(label@) {
                assert forall|x: Seq<char>| #[trigger] label_views(seen@).contains(x) <==> ls.take(i + 1).contains(x) by {
                    lemma_push_seq(ls.take(i as int), label@, x);
                }
            }
        }
        i = i + 1;
    }
    proof {
        assert(ls.take(i as int) =~= ls);
    }
}

proof fn lemma_push_seq(s: Seq<Seq<char>>, a: Seq<char>, x: Seq<char>)
    ensures
        s.push(a).contains(x) <==> (s.contains(x) || a == x),
{
    if s.push(a).contains(x) {
        let j = choose|j: int| 0 <= j < s.push(a).len() && s.push(a)[j] == x;
        if j < s.len() {
            assert(s[j] == x);
        }
    }
    if s.contains(x) {
        let j = choose|j: int| 0 <= j < s.len() && s[j] == x;
        assert(s.push(a)[j] == x);
    }
    if a == x {
        assert(s.push(a)[s.len() as int] == x);
    }
}

/// The labels of `labels` that repeat an earlier one, in order.
pub open spec fn repeated_labels(labels: Seq<Seq<char>>) -> Seq<Seq<char>>
    decreases labels.len(),
{
    if labels.len() == 0 {
        Seq::empty()
    } else {
        let rest = repeated_labels(labels.drop_last());
        if labels.drop_last().contains(labels.last()) {
            rest.push(labels.last())
        } else {
            rest
        }
    }
}

/// The edge ends (source, then target) that name no node of `nodes`, edge
/// by edge, each as the edge's label and the missing node label.
pub open spec fn dangling_refs(edges: Seq<EdgeDefinition>, nodes: Seq<Seq<char>>) -> Seq<(Seq<char>, Seq<char>)>
    decreases edges.len(),
{
    if edges.len() == 0 {
        Seq::empty()
    } else {
        let rest = dangling_refs(edges.drop_last(), nodes);
        let e = edges.last();
        let r1 = if !nodes.contains(e.from_node@) {
            rest.push((e.label@, e.from_node@))
        } else {
            rest
        };
        if !nodes.contains(e.to_node@) {
            r1.push((e.label@, e.to_node@))
        } else {
            r1
        }
    }
}

/// What `validate_or_error` answers for `o`, following the order in which
/// validation reports errors: for a repeated node label, a `DuplicateLabel`
/// of kind "node" naming the first one; else for a repeated edge label, one
/// of kind "edge"; else for an edge end naming no node, a `DanglingEdge`
/// with the first such edge's label and the missing node label; else
/// nothing.
pub open spec fn validation_verdict(o: Ontology, r: Result<(), OntologyError>) -> bool {
    let nd = repeated_labels(node_labels_of(o));
    let ed = repeated_labels(edge_labels_of(o));
    let dg = dangling_refs(o.edges@, node_labels_of(o));
    if nd.len() > 0 {
        match r {
            Err(OntologyError::DuplicateLabel { kind, label }) => kind@ == "node"@ && label@ == nd[0],
            _ => false,
        }
    } else if ed.len() > 0 {
        match r {
            Err(OntologyError::DuplicateLabel { kind, label }) => kind@ == "edge"@ && label@ == ed[0],
            _ => false,
        }
    } else if dg.len() > 0 {
        match r {
            Err(OntologyError::DanglingEdge { edge, node }) => edge@ == dg[0].0 && node@ == dg[0].1,
            _ => false,
        }
    } else {
        r is Ok
    }
}

proof fn lemma_repeated_len(labels: Seq<Seq<char>>, kind: Seq<char>)
    ensures
        repeated_labels(labels).len() == duplicate_findings(labels, kind).len(),
    decreases labels.len(),
{
    if labels.len() > 0 {
        lemma_repeated_len(labels.drop_last(), kind);
    }
}

proof fn lemma_dangling_len(edges: Seq<EdgeDefinition>, nodes: Seq<Seq<char>>)
    ensures
        dangling_refs(edges, nodes).len() == dangling_findings(edges, nodes).len(),
    decreases edges.len(),
{
    if edges.len() > 0 {
        lemma_dangling_len(edges.drop_last(), nodes);
    }
}

/// What `repeated_labels` finds in a prefix it also finds, at the same
/// places, in the whole.
proof fn lemma_repeated_prefix(labels: Seq<Seq<char>>, k: int)
    requires
        0 <= k <= labels.len(),
    ensures
        repeated_labels(labels.take(k)).len() <= repeated_labels(labels).len(),
        forall|i: int|
            0 <= i < repeated_labels(labels.take(k)).len() ==> #[trigger] repeated_labels(labels.take(k))[i]
                == repeated_labels(labels)[i],
    decreases labels.len(),
{
    if k == labels.len() {
        assert(labels.take(k) =~= labels);
    } else {
        let p = labels.drop_last();
        assert(labels.take(k) =~= p.take(k));
        lemma_repeated_prefix(p, k);
    }
}

proof fn lemma_dangling_prefix(edges: Seq<EdgeDefinition>, nodes: Seq<Seq<char>>, k: int)
    requires
        0 <= k <= edges.len(),
    ensures
        dangling_refs(edges.take(k), nodes).len() <= dangling_refs(edges, nodes).len(),
        forall|i: int|
            0 <= i < dangling_refs(edges.take(k), nodes).len() ==> #[trigger] dangling_refs(edges.take(k), nodes)[i]
                == dangling_refs(edges, nodes)[i],
    decreases edges.len(),
{
    if k == edges.len() {
        assert(edges.take(k) =~= edges);
    } else {
        let p = edges.drop_last();
        assert(edges.take(k) =~= p.take(k));
        lemma_dangling_prefix(p, nodes, k);
    }
}

/// The first label of `labels` that repeats an earlier one, if any.
fn first_repeated(labels: &Vec<String>) -> (r: Option<String>)
    ensures
        match r {
            Some(x) => repeated_labels(label_views(labels@)).len() > 0 && x@ == repeated_labels(
                label_views(labels@),
            )[0],
            None => repeated_labels(label_views(labels@)).len() == 0,
        },
{
    let ghost ls = label_views(labels@);
    let mut seen: Vec<String> = Vec::new();
    let mut i: usize = 0;
    while i < labels.len()
        invariant
            i <= labels@.len(),
            ls == label_views(labels@),
            repeated_labels(ls.take(i as int)).len() == 0,
            forall|x: Seq<char>| #[trigger] label_views(seen@).contains(x) <==> ls.take(i as int).contains(x),
        decreases labels@.len() - i,
    {
        let label = &labels[i];
        let ghost before = label_views(seen@);
        proof {
            assert(ls.take(i + 1).drop_last() =~= ls.take(i as int));
            assert(ls.take(i + 1).last() == label@);
        }
        if holds_label(&seen, label) {
            let found = label.clone();
            proof {
                assert(ls.take(i as int).contains(label@));
                assert(repeated_labels(ls.take(i + 1)) == repeated_labels(ls.take(i as int)).push(label@));
                lemma_repeated_prefix(ls, i + 1);
                assert(repeated_labels(ls.take(i + 1))[0] == label@);
            }
            return Some(found);
        }
        seen.push(label.clone());
        proof {
            assert(label_views(seen@) =~= before.push(label@));
            assert forall|x: Seq<char>| #[trigger] label_views(seen@).contains(x) <==> ls.take(i + 1).contains(x) by {
                lemma_push_seq(before, label@, x);
                lemma_push_seq(ls.take(i as int), label@, x);
            }
        }
        i = i + 1;
    }
    proof {
        assert(ls.take(i as int) =~= ls);
    }
    None
}

/// The first edge end naming no node of `node_labels`, as the edge's label
/// and the missing node label, if any.
fn first_dangling(edges: &Vec<EdgeDefinition>, node_labels: &Vec<String>) -> (r: Option<(String, String)>)
    ensures
        match r {
            Some(x) => dangling_refs(edges@, label_views(node_labels@)).len() > 0 && (x.0@, x.1@) == dangling_refs(
                edges@,
                label_views(node_labels@),
            )[0],
            None => dangling_refs(edges@, label_views(node_labels@)).len() == 0,
        },
{
    let ghost nl = label_views(node_labels@);
    let mut j: usize = 0;
    while j < edges.len()
        invariant
            j <= edges@.len(),
            nl == label_views(node_labels@),
            dangling_refs(edges@.take(j as int), nl).len() == 0,
        decreases edges@.len() - j,
    {
        let edge = &edges[j];
        proof {
            assert(edges@.take(j + 1).drop_last() =~= edges@.take(j as int));
            assert(edges@.take(j + 1).last() == *edge);
        }
        if !holds_label(node_labels, &edge.from_node) {
            let a = edge.label.clone();
            let b = edge.from_node.clone();
            proof {
                let rest = dangling_refs(edges@.take(j as int), nl);
                let r1 = rest.push((edge.label@, edge.from_node@));
                assert(dangling_refs(edges@.take(j + 1), nl) == if !nl.contains(edge.to_node@) {
                    r1.push((edge.label@, edge.to_node@))
                } else {
                    r1
                });
                assert(dangling_refs(edges@.take(j + 1), nl)[0] == (edge.label@, edge.from_node@));
                lemma_dangling_prefix(edges@, nl, j + 1);
            }
            return Some((a, b));
        }
        if !holds_label(node_labels, &edge.to_node) {
            let a = edge.label.clone();
            let b = edge.to_node.clone();
            proof {
                assert(dangling_refs(edges@.take(j + 1), nl) == dangling_refs(edges@.take(j as int), nl).push(
                    (edge.label@, edge.to_node@),
                ));
                assert(dangling_refs(edges@.take(j + 1), nl)[0] == (edge.label@, edge.to_node@));
                lemma_dangling_prefix(edges@, nl, j + 1);
            }
            return Some((a, b));
        }
        j = j + 1;
    }
    proof {
        assert(edges@.take(j as int) =~= edges@);
    }
    None
}

impl Ontology {
    /// Validates the ontology structure: repeated node labels and repeated
    /// edge labels (code FG-ONT-E004), edge ends naming no node (FG-ONT-E003),
    /// and, as warnings, temporal edges without a partition hint
    /// (FG-ONT-W002).
    pub fn validate(&self) -> (r: ValidationResult)
        ensures
            error_findings(r.errors@) == validation_errors(*self),
            warning_findings(r.warnings@) == temporal_findings(self.edges@),
    {
        let mut errors: Vec<ValidationError> = Vec::new();
        let mut warnings: Vec<ValidationWarning> = Vec::new();
        let mut node_list: Vec<String> = Vec::new();
        let mut i: usize = 0;
        while i < self.nodes.len()
            invariant
                i <= self.nodes@.len(),
                node_list@.len() == i,
                forall|j: int| 0 <= j < i ==> (#[trigger] node_list@[j])@ == self.nodes@[j].label@,
            decreases self.nodes@.len() - i,
        {
            node_list.push(self.nodes[i].label.clone());
            i = i + 1;
        }
        let mut edge_list: Vec<String> = Vec::new();
        let mut k: usize = 0;
        while k < self.edges.len()
            invariant
                k <= self.edges@.len(),
                edge_list@.len() == k,
                forall|j: int| 0 <= j < k ==> (#[trigger] edge_list@[j])@ == self.edges@[j].label@,
            decreases self.edges@.len() - k,
        {
            edge_list.push(self.edges[k].label.clone());
            k = k + 1;
        }
        proof {
            assert(label_views(node_list@) =~= node_labels_of(*self));
            assert(label_views(edge_list@) =~= edge_labels_of(*self));
            assert(error_findings(errors@) =~= Seq::<(Seq<char>, Seq<char>)>::empty());
        }
        let mut node_labels: Vec<String> = Vec::new();
        check_duplicates(&node_list, "node", &mut errors, &mut node_labels);
        let mut edge_labels: Vec<String> = Vec::new();
        check_duplicates(&edge_list, "edge", &mut errors, &mut edge_labels);
        proof {
            reveal_strlit("node");
            reveal_strlit("edge");
            assert(error_findings(errors@) =~= duplicate_findings(node_labels_of(*self), "node"@) + duplicate_findings(
                edge_labels_of(*self),
                "edge"@,
            ));
        }
        let ghost e0 = error_findings(errors@);
        let ghost nl = node_labels_of(*self);
        let mut j: usize = 0;
        while j < self.edges.len()
            invariant
                j <= self.edges@.len(),
                nl == node_labels_of(*self),
                forall|x: Seq<char>| #[trigger] label_views(node_labels@).contains(x) <==> nl.contains(x),
                error_findings(errors@) == e0 + dangling_findings(self.edges@.take(j as int), nl),
            decreases self.edges@.len() - j,
        {
            let edge = &self.edges[j];
            let ghost errs0 = errors@;
            proof {
                assert(self.edges@.take(j + 1).drop_last() =~= self.edges@.take(j as int));
                assert(self.edges@.take(j + 1).last() == *edge);
            }
            if !holds_label(&node_labels, &edge.from_node) {
                let mut message = String::from_str("Edge '");
                message.append(edge.label.as_str());
                message.append("' references undefined node '");
                message.append(edge.from_node.as_str());
                message.append("'");
                errors.push(ValidationError { code: "FG-ONT-E003", message });
                proof {
                    reveal_strlit("FG-ONT-E003");
                    assert(error_findings(errors@) =~= error_findings(errs0).push(
                        dangling_finding(edge.label@, edge.from_node@),
                    ));
                }
            }
            let ghost errs1 = errors@;
            if !holds_label(&node_labels, &edge.to_node) {
                let mut message = String::from_str("Edge '");
                message.append(edge.label.as_str());
                message.append("' references undefined node '");
                message.append(edge.to_node.as_str());
                message.append("'");
                errors.push(ValidationError { code: "FG-ONT-E003", message });
                proof {
                    reveal_strlit("FG-ONT-E003");
                    assert(error_findings(errors@) =~= error_findings(errs1).push(
                        dangling_finding(edge.label@, edge.to_node@),
                    ));
                }
            }
            proof {
                assert(error_findings(errors@) =~= e0 + dangling_findings(self.edges@.take(j + 1), nl));
            }
            j = j + 1;
        }
        let mut t: usize = 0;
        while t < self.edges.len()
            invariant
                t <= self.edges@.len(),
                warning_findings(warnings@) == temporal_findings(self.edges@.take(t as int)),
            decreases self.edges@.len() - t,
        {
            let edge = &self.edges[t];
            let ghost w0 = warnings@;
            proof {
                assert(self.edges@.take(t + 1).drop_last() =~= self.edges@.take(t as int));
                assert(self.edges@.take(t + 1).last() == *edge);
            }
            if edge.valid_from_column.is_some() && edge.partition_column.is_none() {
                let mut message = String::from_str("Temporal edge '");
                message.append(edge.label.as_str());
                message.append("' has no partition hint; full scans may occur");
                warnings.push(ValidationWarning { code: "FG-ONT-W002", message });
                proof {
                    reveal_strlit("FG-ONT-W002");
                    assert(warning_findings(warnings@) =~= warning_findings(w0).push(
                        (
                            "FG-ONT-W002"@,
                            "Temporal edge '"@ + edge.label@ + "' has no partition hint; full scans may occur"@,
                        ),
                    ));
                }
            }
            t = t + 1;
        }
        proof {
            assert(self.edges@.take(j as int) =~= self.edges@);
            assert(self.edges@.take(t as int) =~= self.edges@);
            assert(warning_findings(Seq::<ValidationWarning>::empty()) =~= Seq::<(Seq<char>, Seq<char>)>::empty());
        }
        ValidationResult { errors, warnings }
    }

    /// Validates and answers with an error for the first validation error:
    /// `Ok` exactly when validation finds no error.
    pub fn validate_or_error(&self) -> (r: Result<(), OntologyError>)
        ensures
            validation_verdict(*self, r),
            r is Ok <==> validation_errors(*self).len() == 0,
    {
        proof {
            lemma_repeated_len(node_labels_of(*self), "node"@);
            lemma_repeated_len(edge_labels_of(*self), "edge"@);
            lemma_dangling_len(self.edges@, node_labels_of(*self));
        }
        let mut node_list: Vec<String> = Vec::new();
        let mut i: usize = 0;
        while i < self.nodes.len()
            invariant
                i <= self.nodes@.len(),
                node_list@.len() == i,
                forall|j: int| 0 <= j < i ==> (#[trigger] node_list@[j])@ == self.nodes@[j].label@,
            decreases self.nodes@.len() - i,
        {
            node_list.push(self.nodes[i].label.clone());
            i = i + 1;
        }
        let mut edge_list: Vec<String> = Vec::new();
        let mut k: usize = 0;
        while k < self.edges.len()
            invariant
                k <= self.edges@.len(),
                edge_list@.len() == k,
                forall|j: int| 0 <= j < k ==> (#[trigger] edge_list@[j])@ == self.edges@[j].label@,
            decreases self.edges@.len() - k,
        {
            edge_list.push(self.edges[k].label.clone());
            k = k + 1;
        }
        proof {
            assert(label_views(node_list@) =~= node_labels_of(*self));
            assert(label_views(edge_list@) =~= edge_labels_of(*self));
        }
        if let Some(label) = first_repeated(&node_list) {
            return Err(OntologyError::DuplicateLabel { kind: String::from_str("node"), label });
        }
        if let Some(label) = first_repeated(&edge_list) {
            return Err(OntologyError::DuplicateLabel { kind: String::from_str("edge"), label });
        }
        if let Some((edge, node)) = first_dangling(&self.edges, &node_list) {
            return Err(OntologyError::DanglingEdge { edge, node });
        }
        Ok(())
    }
}

proof fn lemma_temporal_findings(edges: Seq<EdgeDefinition>)
    ensures
        temporal_findings(edges).len() == edges.filter(
            |e: EdgeDefinition| e.valid_from_column is Some && e.partition_column is None,
        ).len(),
        forall|k: int|
            0 <= k < temporal_findings(edges).len() ==> exists|i: int|
                0 <= i < edges.len() && (#[trigger] edges[i]).valid_from_column is Some
                    && edges[i].partition_column is None && #[trigger] temporal_findings(edges)[k] == (
                    "FG-ONT-W002"@,
                    "Temporal edge '"@ + edges[i].label@ + "' has no partition hint; full scans may occur"@,
                ),
    decreases edges.len(),
{
    reveal(Seq::filter);
    if edges.len() > 0 {
        let p = edges.drop_last();
        lemma_temporal_findings(p);
        let t = temporal_findings(edges);
        let tp = temporal_findings(p);
        assert forall|k: int| 0 <= k < t.len() implies exists|i: int|
            0 <= i < edges.len() && (#[trigger] edges[i]).valid_from_column is Some && edges[i].partition_column is None
                && #[trigger] t[k] == (
                "FG-ONT-W002"@,
                "Temporal edge '"@ + edges[i].label@ + "' has no partition hint; full scans may occur"@,
            ) by {
            if k < tp.len() {
                let i = choose|i: int|
                    0 <= i < p.len() && (#[trigger] p[i]).valid_from_column is Some && p[i].partition_column is None
                        && tp[k] == (
                        "FG-ONT-W002"@,
                        "Temporal edge '"@ + p[i].label@ + "' has no partition hint; full scans may occur"@,
                    );
                assert(edges[i] == p[i]);
                assert(t[k] == tp[k]);
            } else {
                let i = edges.len() - 1;
                assert(edges[i] == edges.last());
            }
        }
    }
}

/// Validation warns exactly about the temporal edges (those with a
/// `valid_from_column`) that have no `partition_column`: one FG-ONT-W002
/// warning for each, naming the edge, and none for any other edge; in
/// particular an ontology without temporal edges gets no warning.
pub proof fn lemma_validate_warnings(o: Ontology, r: ValidationResult)
    requires
        warning_findings(r.warnings@) == temporal_findings(o.edges@),
    ensures
        r.warnings@.len() == o.edges@.filter(
            |e: EdgeDefinition| e.valid_from_column is Some && e.partition_column is None,
        ).len(),
        forall|k: int|
            0 <= k < r.warnings@.len() ==> exists|i: int|
                0 <= i < o.edges@.len() && (#[trigger] o.edges@[i]).valid_from_column is Some
                    && o.edges@[i].partition_column is None && (#[trigger] r.warnings@[k]).code@ == "FG-ONT-W002"@
                    && r.warnings@[k].message@ == "Temporal edge '"@ + o.edges@[i].label@
                    + "' has no partition hint; full scans may occur"@,
        (forall|i: int| 0 <= i < o.edges@.len() ==> (#[trigger] o.edges@[i]).valid_from_column is None)
            ==> r.warnings@.len() == 0,
{
    lemma_temporal_findings(o.edges@);
    let pred = |e: EdgeDefinition| e.valid_from_column is Some && e.partition_column is None;
    assert(warning_findings(r.warnings@).len() == r.warnings@.len());
    assert forall|k: int| 0 <= k < r.warnings@.len() implies exists|i: int|
        0 <= i < o.edges@.len() && (#[trigger] o.edges@[i]).valid_from_column is Some
            && o.edges@[i].partition_column is None && (#[trigger] r.warnings@[k]).code@ == "FG-ONT-W002"@
            && r.warnings@[k].message@ == "Temporal edge '"@ + o.edges@[i].label@
            + "' has no partition hint; full scans may occur"@ by {
        assert(warning_findings(r.warnings@)[k] == (r.warnings@[k].code@, r.warnings@[k].message@));
    }
    if forall|i: int| 0 <= i < o.edges@.len() ==> (#[trigger] o.edges@[i]).valid_from_column is None {
        if r.warnings@.len() > 0 {
            assert(warning_findings(r.warnings@)[0] == (r.warnings@[0].code@, r.warnings@[0].message@));
            assert(false);
        }
    }
}

} // verus!
