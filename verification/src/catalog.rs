//! The graph catalog: built graphs registered under names, the handoff
//! point between building graphs and traversing them from queries; and
//! the resolution of the `graph_traverse` table function's arguments
//! against it.

use std::sync::Arc;

use vstd::prelude::*;

use crate::csr::CsrGraph;
use crate::engine::{is_plan, EngineError};
use crate::ontology::{first_match, label_views, lemma_first_match};
use crate::text::{decimal, i64_to_decimal, signed_decimal, u64_to_decimal};
use crate::traversal::{TraversalAlgorithm, TraversalDirection, TraversalSpec};
use crate::types::NodeId;

verus! {

// ---------------------------------------------------------------------
// Name order
// ---------------------------------------------------------------------

/// Lexicographic order of byte strings: the order of `String`s.
pub open spec fn bytes_less(a: Seq<u8>, b: Seq<u8>) -> bool
    decreases a.len(),
{
    if a.len() == 0 {
        b.len() > 0
    } else if b.len() == 0 {
        false
    } else if a[0] < b[0] {
        true
    } else if a[0] > b[0] {
        false
    } else {
        bytes_less(a.drop_first(), b.drop_first())
    }
}

/// Name `a` sorts before name `b`: their UTF-8 encodings compare so.
pub open spec fn name_less(a: Seq<char>, b: Seq<char>) -> bool {
    bytes_less(vstd::utf8::encode_utf8(a), vstd::utf8::encode_utf8(b))
}

/// Each name sorts before every later one.
pub open spec fn names_sorted(s: Seq<Seq<char>>) -> bool {
    forall|i: int, j: int| #![trigger s[i], s[j]] 0 <= i < j < s.len() ==> name_less(s[i], s[j])
}

/// The `j`-th name sorts before `x`.
pub open spec fn below(s: Seq<Seq<char>>, x: Seq<char>, j: int) -> bool {
    name_less(s[j], x)
}

proof fn lemma_bytes_irreflexive(a: Seq<u8>)
    ensures
        !bytes_less(a, a),
    decreases a.len(),
{
    if a.len() > 0 {
        lemma_bytes_irreflexive(a.drop_first());
    }
}

proof fn lemma_bytes_total(a: Seq<u8>, b: Seq<u8>)
    requires
        a != b,
    ensures
        bytes_less(a, b) || bytes_less(b, a),
    decreases a.len(),
{
    if a.len() > 0 && b.len() > 0 && a[0] == b[0] {
        if a.drop_first() == b.drop_first() {
            assert(a =~= seq![a[0]] + a.drop_first());
            assert(b =~= seq![b[0]] + b.drop_first());
        }
        lemma_bytes_total(a.drop_first(), b.drop_first());
    }
    if a.len() == 0 && b.len() == 0 {
        assert(a =~= b);
    }
}

proof fn lemma_names_total(a: Seq<char>, b: Seq<char>)
    requires
        a != b,
    ensures
        name_less(a, b) || name_less(b, a),
        !name_less(a, a),
{
    broadcast use vstd::utf8::encode_utf8_decode_utf8;

    let ea = vstd::utf8::encode_utf8(a);
    let eb = vstd::utf8::encode_utf8(b);
    assert(vstd::utf8::decode_utf8(ea) == a);
    assert(vstd::utf8::decode_utf8(eb) == b);
    lemma_bytes_total(ea, eb);
    lemma_bytes_irreflexive(ea);
}

/// Whether name `a` sorts before name `b`.
pub fn name_precedes(a: &str, b: &str) -> (r: bool)
    ensures
        r == name_less(a@, b@),
{
    let x = a.as_bytes();
    let y = b.as_bytes();
    let ghost ex = vstd::utf8::encode_utf8(a@);
    let ghost ey = vstd::utf8::encode_utf8(b@);
    proof {
        assert(ex.skip(0) =~= ex);
        assert(ey.skip(0) =~= ey);
    }
    let mut i: usize = 0;
    while i < x.len() && i < y.len()
        invariant
            x@ == ex,
            y@ == ey,
            ex == vstd::utf8::encode_utf8(a@),
            ey == vstd::utf8::encode_utf8(b@),
            i <= x@.len(),
            i <= y@.len(),
            bytes_less(ex, ey) == bytes_less(ex.skip(i as int), ey.skip(i as int)),
        decreases x@.len() - i,
    {
        let p = x[i];
        let q = y[i];
        proof {
            assert(ex.skip(i as int)[0] == p);
            assert(ey.skip(i as int)[0] == q);
            assert(ex.skip(i as int).drop_first() =~= ex.skip(i + 1));
            assert(ey.skip(i as int).drop_first() =~= ey.skip(i + 1));
        }
        if p < q {
            proof {
                let a = ex.skip(i as int);
                let b = ey.skip(i as int);
                assert(a.len() > 0 && b.len() > 0);
                assert(a[0] < b[0]);
                assert(bytes_less(a, b));
            }
            return true;
        }
        if p > q {
            proof {
                let a = ex.skip(i as int);
                let b = ey.skip(i as int);
                assert(a.len() > 0 && b.len() > 0);
                assert(a[0] > b[0]);
                assert(!bytes_less(a, b));
            }
            return false;
        }
        i = i + 1;
    }
    proof {
        if i == x@.len() {
            assert(ex.skip(i as int).len() == 0);
        } else {
            assert(ey.skip(i as int).len() == 0);
        }
    }
    x.len() == i && i < y.len()
}

// ---------------------------------------------------------------------
// The catalog
// ---------------------------------------------------------------------

/// Another handle on the graph behind `g`.
///
/// Calls `Arc::clone`, which std documents as making another pointer to
/// the same allocation: the contract says the handle shows the same graph.
#[verifier::external_body]
pub(crate) fn share(g: &Arc<CsrGraph>) -> (r: Arc<CsrGraph>)
    ensures
        *r == **g,
{
    Arc::clone(g)
}

/// Registry mapping names to built graphs.
///
/// Names are kept in name order, each once; the graph at each position
/// belongs to the name at that position.
#[derive(Debug)]
pub struct GraphCatalog {
    names: Vec<String>,
    graphs: Vec<Arc<CsrGraph>>,
}

/// Position of `k` in a sequence without repeats, if it is there.
proof fn lemma_unique_match(s: Seq<Seq<char>>, k: Seq<char>, i: int)
    requires
        s.no_duplicates(),
        0 <= i < s.len(),
        s[i] == k,
    ensures
        first_match(s, k) == Some(i),
{
    lemma_first_match(s, k);
    let j = first_match(s, k)->0;
    if j != i {
        assert(s[j] == s[i]);
    }
}

impl GraphCatalog {
    /// The registered names, in name order.
    pub closed spec fn spec_names(&self) -> Seq<Seq<char>> {
        label_views(self.names@)
    }

    /// Names are distinct and sorted, one graph per name.
    pub closed spec fn wf(&self) -> bool {
        &&& self.names@.len() == self.graphs@.len()
        &&& self.spec_names().no_duplicates()
        &&& names_sorted(self.spec_names())
    }

    /// The graph registered under `name`, if any.
    pub closed spec fn lookup(&self, name: Seq<char>) -> Option<CsrGraph> {
        match first_match(self.spec_names(), name) {
            Some(i) => Some(*self.graphs@[i]),
            None => None,
        }
    }

    proof fn lemma_lookup(&self, name: Seq<char>)
        requires
            self.wf(),
        ensures
            self.lookup(name) is Some <==> self.spec_names().contains(name),
            forall|i: int|
                0 <= i < self.spec_names().len() && self.spec_names()[i] == name ==> self.lookup(name) == Some(
                    *self.graphs@[i],
                ),
    {
        lemma_first_match(self.spec_names(), name);
        assert forall|i: int|
            0 <= i < self.spec_names().len() && self.spec_names()[i] == name implies self.lookup(name) == Some(
                *self.graphs@[i],
            ) by {
            lemma_unique_match(self.spec_names(), name, i);
        }
    }

    /// Creates an empty catalog.
    pub fn new() -> (r: Self)
        ensures
            r.wf(),
            r.spec_names() == Seq::<Seq<char>>::empty(),
            forall|k: Seq<char>| r.lookup(k) is None,
    {
        let r = GraphCatalog { names: Vec::new(), graphs: Vec::new() };
        proof {
            assert(r.spec_names() =~= Seq::<Seq<char>>::empty());
        }
        r
    }

    /// Position of `name`, if registered.
    fn position(&self, name: &str) -> (r: Option<usize>)
        requires
            self.wf(),
        ensures
            match r {
                Some(i) => i < self.spec_names().len() && self.spec_names()[i as int] == name@,
                None => !self.spec_names().contains(name@),
            },
    {
        let owned = name.to_owned();
        let mut i: usize = 0;
        while i < self.names.len()
            invariant
                i <= self.names@.len(),
                owned@ == name@,
                forall|j: int| 0 <= j < i ==> self.spec_names()[j] != name@,
            decreases self.names@.len() - i,
        {
            if self.names[i] == owned {
                return Some(i);
            }
            i = i + 1;
        }
        None
    }

    /// Returns the graph registered under `name`, if any.
    pub fn get(&self, name: &str) -> (r: Option<Arc<CsrGraph>>)
        requires
            self.wf(),
        ensures
            match r {
                Some(g) => self.lookup(name@) == Some(*g),
                None => self.lookup(name@) is None,
            },
    {
        proof {
            self.lemma_lookup(name@);
        }
        match self.position(name) {
            Some(i) => Some(share(&self.graphs[i])),
            None => None,
        }
    }

    /// Registers `graph` under `name`, returning the graph registered
    /// under it before, if any.
    pub fn register(&mut self, name: String, graph: Arc<CsrGraph>) -> (r: Option<Arc<CsrGraph>>)
        requires
            old(self).wf(),
        ensures
            final(self).wf(),
            forall|k: Seq<char>|
                #[trigger] final(self).lookup(k) == if k == name@ {
                    Some(*graph)
                } else {
                    old(self).lookup(k)
                },
            match r {
                Some(g) => old(self).lookup(name@) == Some(*g),
                None => old(self).lookup(name@) is None,
            },
    {
        proof {
            self.lemma_lookup(name@);
        }
        let ghost before = *self;
        match self.position(name.as_str()) {
            Some(i) => {
                let g = share(&self.graphs[i]);
                self.graphs.set(i, graph);
                proof {
                    assert(self.spec_names() == before.spec_names());
                    assert forall|k: Seq<char>| #[trigger]
                        self.lookup(k) == if k == name@ {
                            Some(*graph)
                        } else {
                            before.lookup(k)
                        } by {
                        lemma_first_match(self.spec_names(), k);
                        if k == name@ {
                            lemma_unique_match(self.spec_names(), k, i as int);
                        }
                    }
                }
                Some(g)
            },
            None => {
                let mut p: usize = 0;
                while p < self.names.len() && name_precedes(self.names[p].as_str(), name.as_str())
                    invariant
                        p <= self.names@.len(),
                        *self == before,
                        forall|j: int| 0 <= j < p ==> #[trigger] below(self.spec_names(), name@, j),
                    decreases self.names@.len() - p,
                {
                    p = p + 1;
                }
                let ghost old_names = self.spec_names();
                proof {
                    assert forall|j: int| 0 <= j < p implies below(old_names, name@, j) by {}
                    if p < old_names.len() {
                        assert(old_names[p as int] != name@);
                        lemma_names_total(old_names[p as int], name@);
                        assert(name_less(name@, old_names[p as int]));
                    }
                }
                let ghost nv = name@;
                self.names.insert(p, name);
                self.graphs.insert(p, graph);
                proof {
                    let s = self.spec_names();
                    assert(s =~= old_names.insert(p as int, nv));
                    assert(s.no_duplicates()) by {
                        assert forall|a: int, b: int| 0 <= a < s.len() && 0 <= b < s.len() && a != b implies s[a]
                            != s[b] by {
                            if a != p && b != p {
                                let oa = if a < p {
                                    a
                                } else {
                                    a - 1
                                };
                                let ob = if b < p {
                                    b
                                } else {
                                    b - 1
                                };
                                assert(s[a] == old_names[oa] && s[b] == old_names[ob]);
                            } else if a == p {
                                let ob = if b < p {
                                    b
                                } else {
                                    b - 1
                                };
                                assert(s[b] == old_names[ob]);
                                assert(old_names.contains(old_names[ob]));
                            } else {
                                let oa = if a < p {
                                    a
                                } else {
                                    a - 1
                                };
                                assert(s[a] == old_names[oa]);
                                assert(old_names.contains(old_names[oa]));
                            }
                        }
                    }
                    assert(names_sorted(s)) by {
                        assert forall|a: int, b: int| 0 <= a < b < s.len() implies name_less(s[a], s[b]) by {
                            if b < p {
                                assert(s[a] == old_names[a] && s[b] == old_names[b]);
                            } else if b == p {
                                assert(s[a] == old_names[a]);
                                assert(below(old_names, nv, a));
                            } else if a == p {
                                assert(s[b] == old_names[b - 1]);
                                if b - 1 > p {
                                    assert(old_names[p as int] == old_names[p as int]);
                                    assert(name_less(old_names[p as int], old_names[b - 1]));
                                    lemma_names_transitive(nv, old_names[p as int], old_names[b - 1]);
                                }
                            } else if a < p {
                                assert(s[a] == old_names[a] && s[b] == old_names[b - 1]);
                            } else {
                                assert(s[a] == old_names[a - 1] && s[b] == old_names[b - 1]);
                            }
                        }
                    }
                    assert forall|k: Seq<char>| #[trigger]
                        self.lookup(k) == if k == nv {
                            Some(*graph)
                        } else {
                            before.lookup(k)
                        } by {
                        lemma_first_match(s, k);
                        lemma_first_match(old_names, k);
                        if k == nv {
                            lemma_unique_match(s, k, p as int);
                        } else {
                            match first_match(old_names, k) {
                                Some(oi) => {
                                    let ni = if oi < p {
                                        oi
                                    } else {
                                        oi + 1
                                    };
                                    assert(s[ni] == k);
                                    lemma_unique_match(s, k, ni);
                                    assert(self.graphs@[ni] == before.graphs@[oi]);
                                },
                                None => {
                                    if s.contains(k) {
                                        let ni = choose|ni: int| 0 <= ni < s.len() && s[ni] == k;
                                        let oi = if ni < p {
                                            ni
                                        } else {
                                            ni - 1
                                        };
                                        assert(old_names[oi] == k);
                                    }
                                },
                            }
                        }
                    }
                }
                None
            },
        }
    }

    /// Removes and returns the graph registered under `name`.
    pub fn deregister(&mut self, name: &str) -> (r: Option<Arc<CsrGraph>>)
        requires
            old(self).wf(),
        ensures
            final(self).wf(),
            forall|k: Seq<char>|
                #[trigger] final(self).lookup(k) == if k == name@ {
                    None
                } else {
                    old(self).lookup(k)
                },
            match r {
                Some(g) => old(self).lookup(name@) == Some(*g),
                None => old(self).lookup(name@) is None,
            },
    {
        proof {
            self.lemma_lookup(name@);
        }
        let ghost before = *self;
        match self.position(name) {
            None => {
                proof {
                    assert forall|k: Seq<char>| #[trigger]
                        self.lookup(k) == if k == name@ {
                            None
                        } else {
                            before.lookup(k)
                        } by {}
                }
                None
            },
            Some(p) => {
                let ghost old_names = self.spec_names();
                self.names.remove(p);
                let g = self.graphs.remove(p);
                proof {
                    let s = self.spec_names();
                    assert(s =~= old_names.remove(p as int));
                    assert(s.no_duplicates()) by {
                        assert forall|a: int, b: int| 0 <= a < s.len() && 0 <= b < s.len() && a != b implies s[a]
                            != s[b] by {
                            let oa = if a < p {
                                a
                            } else {
                                a + 1
                            };
                            let ob = if b < p {
                                b
                            } else {
                                b + 1
                            };
                            assert(s[a] == old_names[oa] && s[b] == old_names[ob]);
                        }
                    }
                    assert(names_sorted(s)) by {
                        assert forall|a: int, b: int| 0 <= a < b < s.len() implies name_less(s[a], s[b]) by {
                            let oa = if a < p {
                                a
                            } else {
                                a + 1
                            };
                            let ob = if b < p {
                                b
                            } else {
                                b + 1
                            };
                            assert(s[a] == old_names[oa] && s[b] == old_names[ob]);
                        }
                    }
                    assert forall|k: Seq<char>| #[trigger]
                        self.lookup(k) == if k == name@ {
                            None
                        } else {
                            before.lookup(k)
                        } by {
                        lemma_first_match(s, k);
                        lemma_first_match(old_names, k);
                        if k == name@ {
                            if s.contains(k) {
                                let ni = choose|ni: int| 0 <= ni < s.len() && s[ni] == k;
                                let oi = if ni < p {
                                    ni
                                } else {
                                    ni + 1
                                };
                                assert(old_names[oi] == k);
                                assert(old_names[p as int] == k);
                            }
                        } else {
                            match first_match(old_names, k) {
                                Some(oi) => {
                                    assert(oi != p);
                                    let ni = if oi < p {
                                        oi
                                    } else {
                                        oi - 1
                                    };
                                    assert(s[ni] == k);
                                    lemma_unique_match(s, k, ni);
                                    assert(self.graphs@[ni] == before.graphs@[oi]);
                                },
                                None => {
                                    if s.contains(k) {
                                        let ni = choose|ni: int| 0 <= ni < s.len() && s[ni] == k;
                                        let oi = if ni < p {
                                            ni
                                        } else {
                                            ni + 1
                                        };
                                        assert(old_names[oi] == k);
                                    }
                                },
                            }
                        }
                    }
                    lemma_unique_match(old_names, name@, p as int);
                }
                Some(g)
            },
        }
    }

    /// Returns the names of all registered graphs, in name order.
    pub fn names(&self) -> (r: Vec<String>)
        requires
            self.wf(),
        ensures
            label_views(r@) == self.spec_names(),
            label_views(r@).no_duplicates(),
            names_sorted(label_views(r@)),
            forall|k: Seq<char>| label_views(r@).contains(k) <==> (#[trigger] self.lookup(k)) is Some,
    {
        let mut r: Vec<String> = Vec::new();
        let mut i: usize = 0;
        while i < self.names.len()
            invariant
                i <= self.names@.len(),
                label_views(r@) == self.spec_names().take(i as int),
                r@.len() == i,
            decreases self.names@.len() - i,
        {
            let c = self.names[i].clone();
            let ghost r0 = r@;
            r.push(c);
            proof {
                assert(r@ == r0.push(c));
                assert forall|k: int| 0 <= k < i + 1 implies #[trigger] label_views(r@)[k] == self.spec_names().take(
                    i + 1,
                )[k] by {
                    if k < i {
                        assert(r@[k] == r0[k]);
                        assert(label_views(r0)[k] == self.spec_names().take(i as int)[k]);
                    }
                }
                assert(label_views(r@) =~= self.spec_names().take(i + 1));
            }
            i = i + 1;
        }
        proof {
            assert(self.spec_names().take(i as int) =~= self.spec_names());
            assert forall|k: Seq<char>| label_views(r@).contains(k) <==> (#[trigger] self.lookup(k)) is Some by {
                self.lemma_lookup(k);
            }
        }
        r
    }
}

proof fn lemma_bytes_transitive(a: Seq<u8>, b: Seq<u8>, c: Seq<u8>)
    requires
        bytes_less(a, b),
        bytes_less(b, c),
    ensures
        bytes_less(a, c),
    decreases a.len(),
{
    if a.len() > 0 && b.len() > 0 && c.len() > 0 && a[0] == b[0] && b[0] == c[0] {
        lemma_bytes_transitive(a.drop_first(), b.drop_first(), c.drop_first());
    }
}

proof fn lemma_names_transitive(a: Seq<char>, b: Seq<char>, c: Seq<char>)
    requires
        name_less(a, b),
        name_less(b, c),
    ensures
        name_less(a, c),
{
    lemma_bytes_transitive(
        vstd::utf8::encode_utf8(a),
        vstd::utf8::encode_utf8(b),
        vstd::utf8::encode_utf8(c),
    );
}

/// Registering a graph under a name makes lookups of that name find it;
/// deregistering the name afterwards makes them find nothing; other names
/// keep what they had throughout.
pub proof fn lemma_register_deregister(
    c0: GraphCatalog,
    c1: GraphCatalog,
    c2: GraphCatalog,
    name: Seq<char>,
    g: CsrGraph,
)
    requires
        forall|k: Seq<char>|
            #[trigger] c1.lookup(k) == if k == name {
                Some(g)
            } else {
                c0.lookup(k)
            },
        forall|k: Seq<char>|
            #[trigger] c2.lookup(k) == if k == name {
                None
            } else {
                c1.lookup(k)
            },
    ensures
        c1.lookup(name) == Some(g),
        c2.lookup(name) is None,
        forall|k: Seq<char>| k != name ==> #[trigger] c2.lookup(k) == c0.lookup(k),
{
    assert(c1.lookup(name) == Some(g));
    assert(c2.lookup(name) is None);
    assert forall|k: Seq<char>| k != name implies #[trigger] c2.lookup(k) == c0.lookup(k) by {
        assert(c1.lookup(k) == c0.lookup(k));
    }
}

// ---------------------------------------------------------------------
// The `graph_traverse` table function
// ---------------------------------------------------------------------

/// The value of an argument of a `graph_traverse` call.
#[derive(Debug, Clone)]
pub enum ScalarArg {
    /// A non-null `Utf8` literal.
    Utf8(String),
    /// A non-null `LargeUtf8` literal.
    LargeUtf8(String),
    /// A non-null `Int64` literal.
    Int64(i64),
    /// A non-null `UInt64` literal.
    UInt64(u64),
    /// A non-null `Int32` literal.
    Int32(i32),
    /// A non-null `UInt32` literal.
    UInt32(u32),
    /// A null literal, a literal of another type, or no literal at all.
    Other,
}

/// An argument of a `graph_traverse` call: its value, and how the query
/// engine renders the present argument in messages.
#[derive(Debug, Clone)]
pub struct CallArg {
    /// The value.
    pub value: ScalarArg,
    /// The rendering of the present argument.
    pub rendering: String,
}

/// The table a `graph_traverse` call resolves to: a traversal of a
/// registered graph.
#[derive(Debug)]
pub struct TraversalTable {
    /// The graph.
    pub graph: Arc<CsrGraph>,
    /// The traversal.
    pub spec: TraversalSpec,
}

/// How the standard library's debug output renders a list of strings.
pub uninterp spec fn debug_string_list(names: Seq<Seq<char>>) -> Seq<char>;

/// Debug rendering of a list of names.
///
/// Calls the standard library's `Debug` formatting of `Vec<String>`
/// (through `format!`); its result, a function of the names alone, is
/// named `debug_string_list` and not spelled out.
#[verifier::external_body]
fn render_names(names: &Vec<String>) -> (r: String)
    ensures
        r@ == debug_string_list(label_views(names@)),
{
    format!("{:?}", names)
}

/// The `i`-th argument, if there is one.
pub open spec fn arg_at(args: Seq<CallArg>, i: int) -> Option<CallArg> {
    if 0 <= i < args.len() {
        Some(args[i])
    } else {
        None
    }
}

/// How a possibly absent argument shows in messages.
pub open spec fn rendering_of(arg: Option<CallArg>) -> Seq<char> {
    match arg {
        Some(a) => a.rendering@,
        None => "None"@,
    }
}

/// The string of a string-literal argument.
pub open spec fn string_arg(arg: Option<CallArg>) -> Option<Seq<char>> {
    match arg {
        Some(a) => match a.value {
            ScalarArg::Utf8(s) => Some(s@),
            ScalarArg::LargeUtf8(s) => Some(s@),
            _ => None,
        },
        None => None,
    }
}

/// The value of a non-negative integer-literal argument, or what the
/// message shows of a refused one: a negative value itself, anything else
/// by its rendering.
pub open spec fn u64_arg(arg: Option<CallArg>) -> Result<u64, Seq<char>> {
    match arg {
        Some(a) => match a.value {
            ScalarArg::Int64(v) => if v >= 0 {
                Ok(v as u64)
            } else {
                Err(signed_decimal(v as int))
            },
            ScalarArg::UInt64(v) => Ok(v),
            ScalarArg::Int32(v) => if v >= 0 {
                Ok(v as u64)
            } else {
                Err(signed_decimal(v as int))
            },
            ScalarArg::UInt32(v) => Ok(v as u64),
            _ => Err(a.rendering@),
        },
        None => Err("None"@),
    }
}

/// The message for an argument that is no string literal.
pub open spec fn string_arg_message(position: Seq<char>, arg: Option<CallArg>) -> Seq<char> {
    "graph_traverse: argument "@ + position + " must be a string literal, got "@ + rendering_of(arg)
}

/// The message for an argument that is no non-negative integer literal.
pub open spec fn u64_arg_message(position: Seq<char>, got: Seq<char>) -> Seq<char> {
    "graph_traverse: argument "@ + position + " must be a non-negative integer literal, got "@ + got
}

/// Parses a string-literal argument.
pub fn parse_string(arg: Option<&CallArg>, position: &str) -> (r: Result<String, EngineError>)
    ensures
        match string_arg(match arg {
            Some(a) => Some(*a),
            None => None,
        }) {
            Some(s) => r is Ok && r->Ok_0@ == s,
            None => r is Err && is_plan(
                r->Err_0,
                string_arg_message(
                    position@,
                    match arg {
                        Some(a) => Some(*a),
                        None => None,
                    },
                ),
            ),
        },
{
    if let Some(a) = arg {
        match &a.value {
            ScalarArg::Utf8(s) => {
                return Ok(s.clone());
            },
            ScalarArg::LargeUtf8(s) => {
                return Ok(s.clone());
            },
            _ => {},
        }
    }
    let mut msg = String::from_str("graph_traverse: argument ");
    msg.append(position);
    msg.append(" must be a string literal, got ");
    match arg {
        Some(a) => msg.append(a.rendering.as_str()),
        None => msg.append("None"),
    }
    proof {
        reveal_strlit("graph_traverse: argument ");
        reveal_strlit(" must be a string literal, got ");
        reveal_strlit("None");
    }
    Err(EngineError::Plan(msg))
}

fn u64_arg_error(position: &str, got: &str) -> (r: EngineError)
    ensures
        is_plan(r, u64_arg_message(position@, got@)),
{
    let mut msg = String::from_str("graph_traverse: argument ");
    msg.append(position);
    msg.append(" must be a non-negative integer literal, got ");
    msg.append(got);
    proof {
        reveal_strlit("graph_traverse: argument ");
        reveal_strlit(" must be a non-negative integer literal, got ");
    }
    EngineError::Plan(msg)
}

/// Parses a non-negative integer-literal argument.
pub fn parse_u64(arg: Option<&CallArg>, position: &str) -> (r: Result<u64, EngineError>)
    ensures
        match u64_arg(match arg {
            Some(a) => Some(*a),
            None => None,
        }) {
            Ok(v) => r == Ok::<u64, EngineError>(v),
            Err(got) => r is Err && is_plan(r->Err_0, u64_arg_message(position@, got)),
        },
{
    match arg {
        Some(a) => match &a.value {
            ScalarArg::Int64(v) => {
                if *v >= 0 {
                    Ok(*v as u64)
                } else {
                    Err(u64_arg_error(position, i64_to_decimal(*v).as_str()))
                }
            },
            ScalarArg::UInt64(v) => Ok(*v),
            ScalarArg::Int32(v) => {
                if *v >= 0 {
                    Ok(*v as u64)
                } else {
                    Err(u64_arg_error(position, i64_to_decimal(*v as i64).as_str()))
                }
            },
            ScalarArg::UInt32(v) => Ok(*v as u64),
            _ => Err(u64_arg_error(position, a.rendering.as_str())),
        },
        None => {
            proof {
                reveal_strlit("None");
            }
            Err(u64_arg_error(position, "None"))
        },
    }
}

/// What a `graph_traverse` call with `args` resolves to against `catalog`.
///
/// Three or four arguments: a graph name, a start node, a hop limit and
/// optionally a node cap, checked in that order; then the graph is looked
/// up, and the hop limit must fit `u32`. The table traverses the graph by
/// outgoing BFS from the start node down to the hop limit, capped at the
/// node cap.
pub open spec fn call_outcome(catalog: GraphCatalog, args: Seq<CallArg>, r: Result<TraversalTable, EngineError>) -> bool {
    let n = args.len();
    let name = string_arg(arg_at(args, 0));
    let start = u64_arg(arg_at(args, 1));
    let hops = u64_arg(arg_at(args, 2));
    let cap = u64_arg(arg_at(args, 3));
    if !(3 <= n <= 4) {
        r is Err && is_plan(
            r->Err_0,
            "graph_traverse expects 3 or 4 arguments (graph_name, start_node, max_hops [, max_nodes]), got "@
                + decimal(n),
        )
    } else if name is None {
        r is Err && is_plan(r->Err_0, string_arg_message("1 (graph_name)"@, arg_at(args, 0)))
    } else if start is Err {
        r is Err && is_plan(r->Err_0, u64_arg_message("2 (start_node)"@, start->Err_0))
    } else if hops is Err {
        r is Err && is_plan(r->Err_0, u64_arg_message("3 (max_hops)"@, hops->Err_0))
    } else if n == 4 && cap is Err {
        r is Err && is_plan(r->Err_0, u64_arg_message("4 (max_nodes)"@, cap->Err_0))
    } else if n == 4 && cap->Ok_0 > usize::MAX {
        r is Err && is_plan(r->Err_0, "graph_traverse: max_nodes exceeds usize"@)
    } else if catalog.lookup(name->0) is None {
        r is Err && is_plan(
            r->Err_0,
            "graph_traverse: no graph named '"@ + name->0 + "' is registered; available graphs: "@
                + debug_string_list(catalog.spec_names()),
        )
    } else if hops->Ok_0 > u32::MAX {
        r is Err && is_plan(r->Err_0, "graph_traverse: max_hops exceeds u32"@)
    } else {
        &&& r is Ok
        &&& *r->Ok_0.graph == catalog.lookup(name->0)->0
        &&& r->Ok_0.spec.start@ == seq![NodeId(start->Ok_0)]
        &&& r->Ok_0.spec.max_depth == hops->Ok_0
        &&& r->Ok_0.spec.max_nodes == if n == 4 {
            Some(cap->Ok_0 as usize)
        } else {
            None
        }
        &&& r->Ok_0.spec.algorithm == TraversalAlgorithm::Bfs
        &&& r->Ok_0.spec.direction == TraversalDirection::Outgoing
    }
}

fn plan_error(msg: &str) -> (r: EngineError)
    ensures
        is_plan(r, msg@),
{
    EngineError::Plan(String::from_str(msg))
}

/// Resolves a `graph_traverse` call; see `call_outcome`.
pub fn resolve_graph_traverse(catalog: &GraphCatalog, args: &[CallArg]) -> (r: Result<TraversalTable, EngineError>)
    requires
        catalog.wf(),
    ensures
        call_outcome(*catalog, args@, r),
{
    let n = args.len();
    if n < 3 || n > 4 {
        let mut msg = String::from_str(
            "graph_traverse expects 3 or 4 arguments (graph_name, start_node, max_hops [, max_nodes]), got ",
        );
        msg.append(u64_to_decimal(n as u64).as_str());
        proof {
            reveal_strlit(
                "graph_traverse expects 3 or 4 arguments (graph_name, start_node, max_hops [, max_nodes]), got ",
            );
        }
        return Err(EngineError::Plan(msg));
    }
    proof {
        reveal_strlit("1 (graph_name)");
        reveal_strlit("2 (start_node)");
        reveal_strlit("3 (max_hops)");
        reveal_strlit("4 (max_nodes)");
        assert(arg_at(args@, 0) == Some(args@[0]));
        assert(arg_at(args@, 1) == Some(args@[1]));
        assert(arg_at(args@, 2) == Some(args@[2]));
    }
    let graph_name = match parse_string(Some(&args[0]), "1 (graph_name)") {
        Ok(s) => s,
        Err(e) => {
            return Err(e);
        },
    };
    let start_node = match parse_u64(Some(&args[1]), "2 (start_node)") {
        Ok(v) => v,
        Err(e) => {
            return Err(e);
        },
    };
    let max_hops = match parse_u64(Some(&args[2]), "3 (max_hops)") {
        Ok(v) => v,
        Err(e) => {
            return Err(e);
        },
    };
    let max_nodes = if n == 4 {
        proof {
            assert(arg_at(args@, 3) == Some(args@[3]));
        }
        let v = match parse_u64(Some(&args[3]), "4 (max_nodes)") {
            Ok(v) => v,
            Err(e) => {
                return Err(e);
            },
        };
        if v > usize::MAX as u64 {
            proof {
                reveal_strlit("graph_traverse: max_nodes exceeds usize");
            }
            return Err(plan_error("graph_traverse: max_nodes exceeds usize"));
        }
        Some(v as usize)
    } else {
        None
    };
    let graph = match catalog.get(graph_name.as_str()) {
        Some(g) => g,
        None => {
            let names = catalog.names();
            let mut msg = String::from_str("graph_traverse: no graph named '");
            msg.append(graph_name.as_str());
            msg.append("' is registered; available graphs: ");
            msg.append(render_names(&names).as_str());
            proof {
                reveal_strlit("graph_traverse: no graph named '");
                reveal_strlit("' is registered; available graphs: ");
            }
            return Err(EngineError::Plan(msg));
        },
    };
    if max_hops > u32::MAX as u64 {
        proof {
            reveal_strlit("graph_traverse: max_hops exceeds u32");
        }
        return Err(plan_error("graph_traverse: max_hops exceeds u32"));
    }
    let mut start: Vec<NodeId> = Vec::new();
    start.push(NodeId(start_node));
    let spec = TraversalSpec {
        start,
        max_depth: max_hops as u32,
        max_nodes,
        algorithm: TraversalAlgorithm::Bfs,
        direction: TraversalDirection::Outgoing,
    };
    proof {
        assert(spec.start@ =~= seq![NodeId(start_node)]);
    }
    Ok(TraversalTable { graph, spec })
}

} // verus!
