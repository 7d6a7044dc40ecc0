//! An undirected, weighted multigraph kept as an adjacency list.
//!
//! Every node is identified by a string label and owns an ordered list of
//! `(neighbour, weight)` entries. An undirected edge is stored as two
//! mirrored directed entries, one on each endpoint's list; entries are not
//! deduplicated, so inserting the same edge again adds a fresh pair.

use vstd::prelude::*;
use vstd::seq_lib::{lemma_multiset_commutative, to_multiset_build, to_multiset_contains};

verus! {

/// A node's adjacency row at the specification level: the node's label and
/// its ordered `(neighbour, weight)` entries.
pub type AdjRow = (Seq<char>, Seq<(Seq<char>, i32)>);

/// The whole adjacency table at the specification level, rows in insertion
/// order.
pub type Table = Seq<AdjRow>;

/// The specification value of one stored adjacency row.
pub open spec fn row_view(row: (String, Vec<(String, i32)>)) -> AdjRow {
    (row.0@, row.1@.map_values(|e: (String, i32)| (e.0@, e.1)))
}

/// The specification value of the whole stored adjacency table.
pub open spec fn table_view(rows: Seq<(String, Vec<(String, i32)>)>) -> Table {
    rows.map_values(|row: (String, Vec<(String, i32)>)| row_view(row))
}

/// Whether `label` is the key of some row of `t`.
pub open spec fn table_contains(t: Table, label: Seq<char>) -> bool {
    exists|i: int| 0 <= i < t.len() && t[i].0 == label
}

/// Every label keys at most one row.
pub open spec fn distinct_keys(t: Table) -> bool {
    forall|i: int, j: int| 0 <= i < j < t.len() ==> t[i].0 != t[j].0
}

/// The table after an `add_node`: unchanged when the label is present,
/// otherwise extended with a fresh row holding an empty adjacency list.
pub open spec fn add_node_spec(t: Table, label: Seq<char>) -> Table {
    if table_contains(t, label) {
        t
    } else {
        t.push((label, Seq::<(Seq<char>, i32)>::empty()))
    }
}

/// The table with `entry` appended to the adjacency list of every row keyed
/// by `label` (exactly one row, whenever the keys are distinct).
pub open spec fn push_entry_spec(t: Table, label: Seq<char>, entry: (Seq<char>, i32)) -> Table {
    t.map_values(
        |row: AdjRow|
            if row.0 == label {
                (row.0, row.1.push(entry))
            } else {
                row
            },
    )
}

/// The table after an `add_edge`: both endpoints are brought into existence,
/// then the entry `(to, weight)` is appended to `from`'s list and the
/// mirrored entry `(from, weight)` to `to`'s list.
pub open spec fn add_edge_spec(t: Table, from: Seq<char>, to: Seq<char>, weight: i32) -> Table {
    push_entry_spec(
        push_entry_spec(add_node_spec(add_node_spec(t, from), to), from, (to, weight)),
        to,
        (from, weight),
    )
}

/// An index of the row keyed by `label` (the unique one whenever the keys
/// are distinct).
pub open spec fn key_index(t: Table, label: Seq<char>) -> int {
    choose|i: int| 0 <= i < t.len() && t[i].0 == label
}

/// The adjacency list stored for `label`, or the empty sequence when the
/// label is absent.
pub open spec fn adj_of(t: Table, label: Seq<char>) -> Seq<(Seq<char>, i32)> {
    if table_contains(t, label) {
        t[key_index(t, label)].1
    } else {
        Seq::empty()
    }
}

/// The directed triples contributed by one row: one `(key, neighbour,
/// weight)` triple per stored entry, in list order.
pub open spec fn row_edges(row: AdjRow) -> Seq<(Seq<char>, Seq<char>, i32)> {
    row.1.map_values(|e: (Seq<char>, i32)| (row.0, e.0, e.1))
}

/// All directed triples of the table, row by row in table order.
pub open spec fn edges_of(t: Table) -> Seq<(Seq<char>, Seq<char>, i32)>
    decreases t.len(),
{
    if t.len() == 0 {
        Seq::empty()
    } else {
        row_edges(t.first()) + edges_of(t.drop_first())
    }
}

/// The row keys of the table, in table order.
pub open spec fn key_seq(t: Table) -> Seq<Seq<char>> {
    t.map_values(|row: AdjRow| row.0)
}

/// The set of node labels of the table.
pub open spec fn node_set(t: Table) -> Set<Seq<char>> {
    key_seq(t).to_set()
}

/// The specification values of a list of labels.
pub open spec fn label_seq_view(labels: Seq<String>) -> Seq<Seq<char>> {
    labels.map_values(|label: String| label@)
}

/// The specification values of a list of directed triples.
pub open spec fn edge_seq_view(entries: Seq<(String, String, i32)>) -> Seq<
    (Seq<char>, Seq<char>, i32),
> {
    entries.map_values(|e: (String, String, i32)| (e.0@, e.1@, e.2))
}

/// An `add_node` leaves present labels alone: the label is a key afterwards,
/// the keys of existing rows are untouched, and keys stay distinct.
pub proof fn lemma_add_node_keys(t: Table, label: Seq<char>, m: Seq<char>)
    ensures
        table_contains(add_node_spec(t, label), label),
        table_contains(add_node_spec(t, label), m) <==> (table_contains(t, m) || m == label),
        distinct_keys(t) ==> distinct_keys(add_node_spec(t, label)),
{
    let t1 = add_node_spec(t, label);
    if !table_contains(t, label) {
        assert(t1[t.len() as int].0 == label);
        if distinct_keys(t) {
            assert forall|i: int, j: int| 0 <= i < j < t1.len() implies t1[i].0 != t1[j].0 by {
                if j < t.len() {
                    assert(t[i].0 != t[j].0);
                } else {
                    assert(t[i].0 != label);
                }
            }
        }
    }
    if table_contains(t, m) {
        let i = choose|i: int| 0 <= i < t.len() && t[i].0 == m;
        assert(t1[i].0 == m);
    }
    if table_contains(t1, m) && m != label {
        let i = choose|i: int| 0 <= i < t1.len() && t1[i].0 == m;
        assert(t[i].0 == m);
    }
}

/// Appending one entry under a key changes no row key, hence neither
/// membership nor key distinctness.
pub proof fn lemma_push_entry_keys(t: Table, label: Seq<char>, entry: (Seq<char>, i32))
    ensures
        push_entry_spec(t, label, entry).len() == t.len(),
        forall|j: int|
            0 <= j < t.len() ==> #[trigger] push_entry_spec(t, label, entry)[j].0 == t[j].0,
        forall|m: Seq<char>|
            #[trigger] table_contains(push_entry_spec(t, label, entry), m) <==> table_contains(
                t,
                m,
            ),
        distinct_keys(push_entry_spec(t, label, entry)) <==> distinct_keys(t),
{
    let t1 = push_entry_spec(t, label, entry);
    assert forall|m: Seq<char>| #[trigger]
        table_contains(t1, m) <==> table_contains(t, m) by {
        if table_contains(t, m) {
            let i = choose|i: int| 0 <= i < t.len() && t[i].0 == m;
            assert(t1[i].0 == m);
        }
        if table_contains(t1, m) {
            let i = choose|i: int| 0 <= i < t1.len() && t1[i].0 == m;
            assert(t[i].0 == m);
        }
    }
    if distinct_keys(t) {
        assert forall|i: int, j: int| 0 <= i < j < t1.len() implies t1[i].0 != t1[j].0 by {
            assert(t1[i].0 == t[i].0 && t1[j].0 == t[j].0);
        }
    }
    if distinct_keys(t1) {
        assert forall|i: int, j: int| 0 <= i < j < t.len() implies t[i].0 != t[j].0 by {
            assert(t1[i].0 == t[i].0 && t1[j].0 == t[j].0);
        }
    }
}

/// `edges_of` distributes over concatenation of tables.
pub proof fn lemma_edges_of_concat(x: Table, y: Table)
    ensures
        edges_of(x + y) == edges_of(x) + edges_of(y),
    decreases x.len(),
{
    if x.len() == 0 {
        assert(x + y =~= y);
        assert(edges_of(x) + edges_of(y) =~= edges_of(y));
    } else {
        assert((x + y).first() == x.first());
        assert((x + y).drop_first() =~= x.drop_first() + y);
        lemma_edges_of_concat(x.drop_first(), y);
        assert(row_edges(x.first()) + (edges_of(x.drop_first()) + edges_of(y)) =~= (row_edges(
            x.first(),
        ) + edges_of(x.drop_first())) + edges_of(y));
    }
}

/// Appending one row appends that row's triples to `edges_of`.
pub proof fn lemma_edges_of_push(t: Table, row: AdjRow)
    ensures
        edges_of(t.push(row)) == edges_of(t) + row_edges(row),
{
    assert(t.push(row) =~= t + seq![row]);
    lemma_edges_of_concat(t, seq![row]);
    lemma_edges_of_singleton(row);
}

/// A one-row table contributes exactly that row's triples.
proof fn lemma_edges_of_singleton(row: AdjRow)
    ensures
        edges_of(seq![row]) == row_edges(row),
{
    assert(seq![row].drop_first() =~= Seq::<AdjRow>::empty());
    assert(edges_of(Seq::<AdjRow>::empty()) == Seq::<(Seq<char>, Seq<char>, i32)>::empty());
    assert(seq![row].first() == row);
    assert(edges_of(seq![row]) == row_edges(row) + edges_of(Seq::<AdjRow>::empty()));
    assert(edges_of(seq![row]) =~= row_edges(row));
}

/// With distinct keys, `key_index` is the one index holding a label.
proof fn lemma_key_index_unique(t: Table, label: Seq<char>, i: int)
    requires
        distinct_keys(t),
        0 <= i < t.len(),
        t[i].0 == label,
    ensures
        key_index(t, label) == i,
{
    assert(table_contains(t, label));
    let k = key_index(t, label);
    if k < i {
        assert(t[k].0 != t[i].0);
    }
    if i < k {
        assert(t[i].0 != t[k].0);
    }
}

/// Inserting a node adds no edge.
pub proof fn lemma_add_node_edges(t: Table, label: Seq<char>)
    ensures
        edges_of(add_node_spec(t, label)) == edges_of(t),
{
    if !table_contains(t, label) {
        let row = (label, Seq::<(Seq<char>, i32)>::empty());
        lemma_edges_of_push(t, row);
        assert(row_edges(row) =~= Seq::<(Seq<char>, Seq<char>, i32)>::empty());
        assert(edges_of(t) + row_edges(row) =~= edges_of(t));
    }
}

/// Inserting a node changes no adjacency list: a present label keeps its
/// list, and an absent label's list was and stays empty.
pub proof fn lemma_add_node_adj(t: Table, label: Seq<char>, m: Seq<char>)
    requires
        distinct_keys(t),
    ensures
        adj_of(add_node_spec(t, label), m) == adj_of(t, m),
{
    let t1 = add_node_spec(t, label);
    lemma_add_node_keys(t, label, m);
    if !table_contains(t, label) {
        if m == label {
            assert(t1[t.len() as int].0 == m);
            lemma_key_index_unique(t1, m, t.len() as int);
            assert(adj_of(t1, m) =~= Seq::<(Seq<char>, i32)>::empty());
        } else if table_contains(t, m) {
            let i = key_index(t, m);
            assert(t[i].0 == m);
            assert(t1[i].0 == m);
            lemma_key_index_unique(t1, m, i);
        }
    }
}

/// Appending an entry under a present key appends it to exactly that key's
/// adjacency list and leaves every other list unchanged.
pub proof fn lemma_push_entry_adj(t: Table, label: Seq<char>, entry: (Seq<char>, i32), m: Seq<char>)
    requires
        distinct_keys(t),
        table_contains(t, label),
    ensures
        adj_of(push_entry_spec(t, label, entry), label) == adj_of(t, label).push(entry),
        m != label ==> adj_of(push_entry_spec(t, label, entry), m) == adj_of(t, m),
{
    let t1 = push_entry_spec(t, label, entry);
    lemma_push_entry_keys(t, label, entry);
    let i = key_index(t, label);
    assert(t[i].0 == label);
    assert(t1[i].0 == label);
    lemma_key_index_unique(t1, label, i);
    assert(t1[i] == (t[i].0, t[i].1.push(entry)));
    if m != label && table_contains(t, m) {
        let k = key_index(t, m);
        assert(t[k].0 == m);
        assert(t1[k].0 == m);
        lemma_key_index_unique(t1, m, k);
        assert(t1[k] == t[k]);
    }
}

/// Appending an entry under a present key adds exactly its directed triple
/// to the edge list.
pub proof fn lemma_push_entry_edges(t: Table, label: Seq<char>, entry: (Seq<char>, i32))
    requires
        distinct_keys(t),
        table_contains(t, label),
    ensures
        edges_of(push_entry_spec(t, label, entry)).to_multiset() == edges_of(
            t,
        ).to_multiset().insert((label, entry.0, entry.1)),
{
    broadcast use vstd::multiset::group_multiset_axioms;

    let t1 = push_entry_spec(t, label, entry);
    let i = key_index(t, label);
    assert(0 <= i < t.len() && t[i].0 == label);
    let row1 = (t[i].0, t[i].1.push(entry));
    assert forall|k: int| 0 <= k < t.len() implies t1[k] == t.update(i, row1)[k] by {
        if k != i {
            if k < i {
                assert(t[k].0 != t[i].0);
            } else {
                assert(t[i].0 != t[k].0);
            }
        }
    }
    assert(t1 =~= t.update(i, row1));
    let front = t.take(i);
    let back = t.skip(i + 1);
    let x = (label, entry.0, entry.1);
    assert(t =~= front + seq![t[i]] + back);
    assert(t.update(i, row1) =~= front + seq![row1] + back);
    lemma_edges_of_concat(front + seq![t[i]], back);
    lemma_edges_of_concat(front, seq![t[i]]);
    lemma_edges_of_concat(front + seq![row1], back);
    lemma_edges_of_concat(front, seq![row1]);
    lemma_edges_of_singleton(t[i]);
    lemma_edges_of_singleton(row1);
    let a = edges_of(front);
    let b = row_edges(t[i]);
    let c = edges_of(back);
    assert(row_edges(row1) =~= b.push(x));
    assert(edges_of(t) == a + b + c);
    assert(edges_of(t1) == a + b.push(x) + c);
    lemma_multiset_commutative(a + b.push(x), c);
    lemma_multiset_commutative(a, b.push(x));
    lemma_multiset_commutative(a + b, c);
    lemma_multiset_commutative(a, b);
    to_multiset_build(b, x);
    assert(a.to_multiset().add(b.to_multiset().insert(x)).add(c.to_multiset())
        =~= a.to_multiset().add(b.to_multiset()).add(c.to_multiset()).insert(x));
    assert(edges_of(t1).to_multiset() == edges_of(t).to_multiset().insert(x));
}

/// A label not yet in the graph is inserted exactly once: after the
/// insertion it is present (so `add_node` reports `true` at most once for a
/// label), and inserting it again changes nothing (so every later call
/// reports `false`).
pub proof fn lemma_add_node_only_once(t: Table, label: Seq<char>)
    ensures
        table_contains(add_node_spec(t, label), label),
        add_node_spec(add_node_spec(t, label), label) == add_node_spec(t, label),
{
    lemma_add_node_keys(t, label, label);
}

/// One `add_edge(a, b, w)` adds exactly the directed triples `(a, b, w)` and
/// `(b, a, w)` to the edge list, and keeps the table's keys distinct.
pub proof fn lemma_add_edge_edges(t: Table, a: Seq<char>, b: Seq<char>, w: i32)
    requires
        distinct_keys(t),
    ensures
        distinct_keys(add_edge_spec(t, a, b, w)),
        edges_of(add_edge_spec(t, a, b, w)).to_multiset() == edges_of(t).to_multiset().insert(
            (a, b, w),
        ).insert((b, a, w)),
{
    let t1 = add_node_spec(t, a);
    let t2 = add_node_spec(t1, b);
    let t3 = push_entry_spec(t2, a, (b, w));
    let t4 = push_entry_spec(t3, b, (a, w));
    lemma_add_node_keys(t, a, b);
    lemma_add_node_keys(t1, b, a);
    lemma_add_node_edges(t, a);
    lemma_add_node_edges(t1, b);
    lemma_push_entry_keys(t2, a, (b, w));
    lemma_push_entry_edges(t2, a, (b, w));
    lemma_push_entry_keys(t3, b, (a, w));
    lemma_push_entry_edges(t3, b, (a, w));
}

/// After `add_edge(a, b, w)`, both endpoints are nodes of the graph and the
/// edge list holds the inserted triple in both directions.
pub proof fn lemma_add_edge_connects(t: Table, a: Seq<char>, b: Seq<char>, w: i32)
    requires
        distinct_keys(t),
    ensures
        table_contains(add_edge_spec(t, a, b, w), a),
        table_contains(add_edge_spec(t, a, b, w), b),
        edges_of(add_edge_spec(t, a, b, w)).contains((a, b, w)),
        edges_of(add_edge_spec(t, a, b, w)).contains((b, a, w)),
{
    broadcast use vstd::multiset::group_multiset_axioms;

    let t1 = add_node_spec(t, a);
    let t2 = add_node_spec(t1, b);
    let t3 = push_entry_spec(t2, a, (b, w));
    lemma_add_node_keys(t, a, a);
    lemma_add_node_keys(t1, b, a);
    lemma_push_entry_keys(t2, a, (b, w));
    lemma_push_entry_keys(t3, b, (a, w));
    lemma_add_edge_edges(t, a, b, w);
    let es = edges_of(add_edge_spec(t, a, b, w));
    to_multiset_contains(es, (a, b, w));
    to_multiset_contains(es, (b, a, w));
    assert(es.to_multiset().count((a, b, w)) > 0);
    assert(es.to_multiset().count((b, a, w)) > 0);
}

/// Inserting the same edge `(a, b, w)` twice does not collapse anything:
/// each insertion adds one `(a, b, w)` and one `(b, a, w)` triple, so two
/// insertions leave two entries per direction — four matching directed
/// triples in all, counted on a self-loop's single direction as well.
pub proof fn lemma_add_edge_twice_multigraph(t: Table, a: Seq<char>, b: Seq<char>, w: i32)
    requires
        distinct_keys(t),
    ensures
        a != b ==> edges_of(
            add_edge_spec(add_edge_spec(t, a, b, w), a, b, w),
        ).to_multiset().count((a, b, w)) == edges_of(t).to_multiset().count((a, b, w)) + 2,
        a != b ==> edges_of(
            add_edge_spec(add_edge_spec(t, a, b, w), a, b, w),
        ).to_multiset().count((b, a, w)) == edges_of(t).to_multiset().count((b, a, w)) + 2,
        a == b ==> edges_of(
            add_edge_spec(add_edge_spec(t, a, b, w), a, b, w),
        ).to_multiset().count((a, b, w)) == edges_of(t).to_multiset().count((a, b, w)) + 4,
{
    broadcast use vstd::multiset::group_multiset_axioms;

    lemma_add_edge_edges(t, a, b, w);
    lemma_add_edge_edges(add_edge_spec(t, a, b, w), a, b, w);
}

/// A self-loop `add_edge(x, x, w)` appends exactly two entries `(x, w)` to
/// `x`'s own adjacency list.
pub proof fn lemma_self_loop_entries(t: Table, x: Seq<char>, w: i32)
    requires
        distinct_keys(t),
    ensures
        adj_of(add_edge_spec(t, x, x, w), x) == adj_of(t, x) + seq![(x, w), (x, w)],
{
    let t1 = add_node_spec(t, x);
    let t2 = add_node_spec(t1, x);
    let t3 = push_entry_spec(t2, x, (x, w));
    let t4 = push_entry_spec(t3, x, (x, w));
    lemma_add_node_keys(t, x, x);
    assert(t2 == t1);
    lemma_add_node_adj(t, x, x);
    lemma_push_entry_keys(t2, x, (x, w));
    lemma_push_entry_adj(t2, x, (x, w), x);
    lemma_push_entry_adj(t3, x, (x, w), x);
    assert(adj_of(t4, x) == adj_of(t, x).push((x, w)).push((x, w)));
    assert(adj_of(t, x).push((x, w)).push((x, w)) =~= adj_of(t, x) + seq![(x, w), (x, w)]);
}

/// The error reserved for lookups of a label that is not in the graph. No
/// operation of this library raises it: node insertion is an idempotent
/// query-and-insert and edge insertion creates missing endpoints itself. It
/// is kept for callers that extend the API with label-keyed lookups.
#[derive(Debug, Clone)]
pub struct NodeNotInGraph;

impl NodeNotInGraph {
    /// The message this error carries.
    pub fn message(&self) -> (m: String)
        ensures
            m@ == "accessing a node that is not in the graph"@,
    {
        "accessing a node that is not in the graph".to_owned()
    }
}

/// An adjacency-list store for an undirected, weighted multigraph.
pub struct UndirectedGraph {
    adjacency_table: Vec<(String, Vec<(String, i32)>)>,
}

/// The capability interface of a graph store: idempotent node insertion,
/// bidirectional edge insertion with auto-creation of missing endpoints, and
/// membership, node and edge queries.
pub trait Graph: Sized {
    /// The specification value of the adjacency table.
    spec fn table(&self) -> Table;

    /// Well-formedness: every label keys at most one row.
    spec fn wf(&self) -> bool;

    /// Creates an empty graph.
    fn new() -> (g: Self)
        ensures
            g.wf(),
            g.table() == Seq::<AdjRow>::empty(),
    ;

    /// Inserts `node` with an empty adjacency list when it is absent and
    /// reports whether it was inserted; a present label is left untouched.
    fn add_node(&mut self, node: &str) -> (added: bool)
        requires
            old(self).wf(),
        ensures
            final(self).wf(),
            added == !table_contains(old(self).table(), node@),
            final(self).table() == add_node_spec(old(self).table(), node@),
    ;

    /// Inserts the undirected edge `(from, to, weight)`: missing endpoints
    /// are created, then the entry `(to, weight)` is appended to `from`'s
    /// adjacency list and the mirrored entry `(from, weight)` to `to`'s.
    fn add_edge(&mut self, edge: (&str, &str, i32))
        requires
            old(self).wf(),
        ensures
            final(self).wf(),
            final(self).table() == add_edge_spec(old(self).table(), edge.0@, edge.1@, edge.2),
            table_contains(final(self).table(), edge.0@),
            table_contains(final(self).table(), edge.1@),
    ;

    /// Reports whether `node` is a current key of the table.
    fn contains(&self, node: &str) -> (present: bool)
        ensures
            present == table_contains(self.table(), node@),
    ;

    /// The current node labels, one per row in table order; as a set they
    /// are exactly the graph's nodes.
    fn nodes(&self) -> (labels: Vec<String>)
        ensures
            label_seq_view(labels@) == key_seq(self.table()),
            label_seq_view(labels@).to_set() == node_set(self.table()),
            self.wf() ==> labels@.no_duplicates(),
    ;

    /// All directed adjacency entries as `(from, to, weight)` triples, row
    /// by row: each undirected edge appears twice, once per direction.
    fn edges(&self) -> (out: Vec<(String, String, i32)>)
        ensures
            edge_seq_view(out@) == edges_of(self.table()),
    ;

    /// Read access to the rows of the adjacency table: each holds a node's
    /// label and its `(neighbour, weight)` entries in insertion order.
    fn adjacency_table(&self) -> (rows: &Vec<(String, Vec<(String, i32)>)>)
        ensures
            table_view(rows@) == self.table(),
    ;
}

impl UndirectedGraph {
    /// An index of the row keyed by `node`, when there is one.
    fn index_of(&self, node: &str) -> (found: Option<usize>)
        ensures
            match found {
                Some(i) => i < self.adjacency_table@.len() && self.adjacency_table@[
                    i as int
                ].0@ == node@,
                None => !table_contains(self.table(), node@),
            },
    {
        let node_string = node.to_owned();
        let mut i: usize = 0;
        while i < self.adjacency_table.len()
            invariant
                i <= self.adjacency_table@.len(),
                node_string@ == node@,
                forall|j: int| 0 <= j < i ==> self.adjacency_table@[j].0@ != node@,
            decreases self.adjacency_table@.len() - i,
        {
            if self.adjacency_table[i].0 == node_string {
                return Some(i);
            }
            i += 1;
        }
        proof {
            assert forall|k: int| 0 <= k < self.table().len() implies self.table()[k].0
                != node@ by {
                assert(self.table()[k].0 == self.adjacency_table@[k].0@);
            }
        }
        None
    }

    /// Appends `(neighbour, weight)` to the adjacency list of the row keyed
    /// by `at`, which must exist.
    fn push_entry(&mut self, at: &str, neighbour: &str, weight: i32)
        requires
            old(self).wf(),
            table_contains(old(self).table(), at@),
        ensures
            final(self).wf(),
            final(self).table() == push_entry_spec(
                old(self).table(),
                at@,
                (neighbour@, weight),
            ),
    {
        let found = self.index_of(at);
        proof {
            if found is None {
                assert(false);
            }
        }
        let i = found.unwrap();
        let (row_label, mut row_list) = self.adjacency_table.remove(i);
        row_list.push((neighbour.to_owned(), weight));
        self.adjacency_table.insert(i, (row_label, row_list));
        proof {
            let rows0 = old(self).adjacency_table@;
            let rows1 = self.adjacency_table@;
            let t0 = old(self).table();
            let t1 = self.table();
            let e = (neighbour@, weight);
            let t2 = push_entry_spec(t0, at@, e);
            assert(rows1 =~= rows0.update(i as int, rows1[i as int]));
            assert(rows1[i as int].0 == rows0[i as int].0);
            assert(rows1[i as int].1@ =~= rows0[i as int].1@.push(rows1[i as int].1@.last()));
            assert(rows1[i as int].1@.last().0@ == neighbour@);
            assert(rows1[i as int].1@.last().1 == weight);
            assert(t0[i as int].0 == at@);
            assert forall|j: int| 0 <= j < t0.len() implies t1[j] == t2[j] by {
                if j == i {
                    assert(row_view(rows1[j]).1 =~= t0[j].1.push(e));
                } else {
                    assert(t0[j].0 != t0[i as int].0);
                    assert(rows1[j] == rows0[j]);
                }
            }
            assert(t1 =~= t2);
            lemma_push_entry_keys(t0, at@, e);
        }
    }
}

impl Graph for UndirectedGraph {
    closed spec fn table(&self) -> Table {
        table_view(self.adjacency_table@)
    }

    open spec fn wf(&self) -> bool {
        distinct_keys(self.table())
    }

    fn new() -> (g: Self) {
        let g = UndirectedGraph { adjacency_table: Vec::new() };
        proof {
            assert(g.table() =~= Seq::<AdjRow>::empty());
        }
        g
    }

    fn add_node(&mut self, node: &str) -> (added: bool) {
        match self.index_of(node) {
            Some(i) => {
                proof {
                    assert(table_contains(self.table(), node@)) by {
                        assert(self.table()[i as int].0 == node@);
                    }
                }
                false
            },
            None => {
                let label = node.to_owned();
                let empty_list: Vec<(String, i32)> = Vec::new();
                self.adjacency_table.push((label, empty_list));
                proof {
                    let rows0 = old(self).adjacency_table@;
                    let rows1 = self.adjacency_table@;
                    let t0 = old(self).table();
                    assert(rows1.last().0@ == node@);
                    assert(rows1.last().1@ =~= Seq::<(String, i32)>::empty());
                    assert(row_view(rows1.last()).1 =~= Seq::<(Seq<char>, i32)>::empty());
                    assert(row_view(rows1.last()) == (node@, Seq::<(Seq<char>, i32)>::empty()));
                    assert(self.table() =~= t0.push((node@, Seq::<(Seq<char>, i32)>::empty())));
                    assert forall|i: int, j: int|
                        0 <= i < j < self.table().len() implies self.table()[i].0 != self.table()[
                        j
                    ].0 by {
                        if j < t0.len() {
                            assert(t0[i].0 != t0[j].0);
                        } else {
                            assert(t0[i].0 != node@);
                        }
                    }
                }
                true
            },
        }
    }

    fn add_edge(&mut self, edge: (&str, &str, i32)) {
        let (from, to, weight) = edge;
        self.add_node(from);
        proof {
            lemma_add_node_keys(old(self).table(), from@, from@);
        }
        self.add_node(to);
        proof {
            lemma_add_node_keys(add_node_spec(old(self).table(), from@), to@, from@);
        }
        self.push_entry(from, to, weight);
        proof {
            lemma_push_entry_keys(
                add_node_spec(add_node_spec(old(self).table(), from@), to@),
                from@,
                (to@, weight),
            );
        }
        self.push_entry(to, from, weight);
        proof {
            lemma_push_entry_keys(
                push_entry_spec(
                    add_node_spec(add_node_spec(old(self).table(), from@), to@),
                    from@,
                    (to@, weight),
                ),
                to@,
                (from@, weight),
            );
        }
    }

    fn contains(&self, node: &str) -> (present: bool) {
        let found = self.index_of(node);
        proof {
            if let Some(i) = found {
                assert(table_contains(self.table(), node@)) by {
                    assert(self.table()[i as int].0 == node@);
                }
            }
        }
        found.is_some()
    }

    fn nodes(&self) -> (labels: Vec<String>) {
        let mut labels: Vec<String> = Vec::new();
        let mut i: usize = 0;
        while i < self.adjacency_table.len()
            invariant
                i <= self.adjacency_table@.len(),
                labels@.len() == i,
                forall|j: int| 0 <= j < i ==> #[trigger] labels@[j]@ == self.table()[j].0,
            decreases self.adjacency_table@.len() - i,
        {
            labels.push(self.adjacency_table[i].0.clone());
            i += 1;
        }
        proof {
            assert(label_seq_view(labels@) =~= key_seq(self.table()));
            if self.wf() {
                assert forall|p: int, q: int|
                    0 <= p < labels@.len() && 0 <= q < labels@.len() && p != q implies labels@[p]
                    != labels@[q] by {
                    assert(labels@[p]@ == self.table()[p].0);
                    assert(labels@[q]@ == self.table()[q].0);
                }
            }
        }
        labels
    }

    fn edges(&self) -> (out: Vec<(String, String, i32)>) {
        let mut out: Vec<(String, String, i32)> = Vec::new();
        let mut i: usize = 0;
        proof {
            assert(self.table().take(0) =~= Seq::<AdjRow>::empty());
            assert(edge_seq_view(out@) =~= edges_of(self.table().take(0)));
        }
        while i < self.adjacency_table.len()
            invariant
                i <= self.adjacency_table@.len(),
                edge_seq_view(out@) == edges_of(self.table().take(i as int)),
            decreases self.adjacency_table@.len() - i,
        {
            let mut j: usize = 0;
            proof {
                let re = row_edges(self.table()[i as int]);
                assert(re.take(0) =~= Seq::<(Seq<char>, Seq<char>, i32)>::empty());
                assert(edge_seq_view(out@) + re.take(0) =~= edge_seq_view(out@));
            }
            while j < self.adjacency_table[i].1.len()
                invariant
                    i < self.adjacency_table@.len(),
                    j <= self.adjacency_table@[i as int].1@.len(),
                    edge_seq_view(out@) == edges_of(self.table().take(i as int)) + row_edges(
                        self.table()[i as int],
                    ).take(j as int),
                decreases self.adjacency_table@[i as int].1@.len() - j,
            {
                let from_label = self.adjacency_table[i].0.clone();
                let to_label = self.adjacency_table[i].1[j].0.clone();
                let weight = self.adjacency_table[i].1[j].1;
                let ghost out0 = out@;
                out.push((from_label, to_label, weight));
                proof {
                    let t = self.table();
                    let re = row_edges(t[i as int]);
                    assert(t[i as int].1[j as int] == (
                        self.adjacency_table@[i as int].1@[j as int].0@,
                        self.adjacency_table@[i as int].1@[j as int].1,
                    ));
                    assert(re[j as int] == (
                        t[i as int].0,
                        t[i as int].1[j as int].0,
                        t[i as int].1[j as int].1,
                    ));
                    assert(out@.last().0@ == t[i as int].0);
                    assert(out@.last().1@ == t[i as int].1[j as int].0);
                    assert(out@.last().2 == t[i as int].1[j as int].1);
                    assert(edge_seq_view(out@) =~= edge_seq_view(out0).push(re[j as int]));
                    assert(edge_seq_view(out0).push(re[j as int]) =~= edges_of(t.take(i as int))
                        + re.take(j as int).push(re[j as int]));
                    assert(re.take(j as int).push(re[j as int]) =~= re.take(j as int + 1));
                    assert(edges_of(t.take(i as int)) + re.take(j as int).push(re[j as int])
                        =~= edges_of(t.take(i as int)) + re.take(j as int + 1));
                }
                j += 1;
            }
            proof {
                let t = self.table();
                let re = row_edges(t[i as int]);
                assert(re.take(re.len() as int) =~= re);
                lemma_edges_of_push(t.take(i as int), t[i as int]);
                assert(t.take(i as int).push(t[i as int]) =~= t.take(i as int + 1));
            }
            i += 1;
        }
        proof {
            assert(self.table().take(self.table().len() as int) =~= self.table());
        }
        out
    }

    fn adjacency_table(&self) -> (rows: &Vec<(String, Vec<(String, i32)>)>) {
        &self.adjacency_table
    }
}

} // verus!
