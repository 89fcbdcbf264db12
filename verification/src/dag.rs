use vstd::prelude::*;
use vstd::seq_lib::seq_to_set_is_finite;
use vstd::set_lib::{lemma_int_range, lemma_len_subset, set_int_range};
use crate::keys::keys_comparable;
use crate::structs::State;

verus! {

/// The ways in which an operation on a [`DAG`] is refused.
#[derive(Clone, Copy, Debug, PartialEq, Eq, Structural)]
pub enum DagError {
    /// A vertex with that key exists already.
    DuplicateKey,
    /// No vertex has that key.
    UnknownKey,
    /// The edge would close a cycle.
    Cycle,
    /// The vertex is not being visited.
    NotVisiting,
    /// The requested change of state is not allowed.
    BadTransition,
}

impl DagError {
    /// The text that stands for the error.
    pub open spec fn text(self) -> Seq<char> {
        match self {
            DagError::DuplicateKey => "DAG already contains a vertex with that key"@,
            DagError::UnknownKey => "No such key"@,
            DagError::Cycle => "Adding edge would result in a cycle"@,
            DagError::NotVisiting => "Not currently visiting that vertex"@,
            DagError::BadTransition => "Unsupported transition"@,
        }
    }

    /// Says in words what went wrong.
    pub fn message(&self) -> (m: String)
        ensures
            m@ == self.text(),
    {
        match self {
            DagError::DuplicateKey => "DAG already contains a vertex with that key".to_owned(),
            DagError::UnknownKey => "No such key".to_owned(),
            DagError::Cycle => "Adding edge would result in a cycle".to_owned(),
            DagError::NotVisiting => "Not currently visiting that vertex".to_owned(),
            DagError::BadTransition => "Unsupported transition".to_owned(),
        }
    }
}

/// The first position of `flags` that is set, if any is.
fn first_set(flags: &Vec<bool>) -> (r: Option<usize>)
    ensures
        match r {
            Some(i) => i < flags@.len() && flags@[i as int] && forall|j: int|
                0 <= j < i ==> !flags@[j],
            None => forall|j: int| 0 <= j < flags@.len() ==> !flags@[j],
        },
{
    let mut i: usize = 0;
    while i < flags.len()
        invariant
            i <= flags@.len(),
            forall|j: int| 0 <= j < i ==> !flags@[j],
        decreases flags@.len() - i,
    {
        if flags[i] {
            return Some(i);
        }
        i += 1;
    }
    None
}

/// Whether `x` occurs in `items`.
fn holds(items: &Vec<usize>, x: usize) -> (r: bool)
    ensures
        r == items@.contains(x),
{
    let mut i: usize = 0;
    while i < items.len()
        invariant
            i <= items@.len(),
            forall|j: int| 0 <= j < i ==> items@[j] != x,
        decreases items@.len() - i,
    {
        if items[i] == x {
            return true;
        }
        i += 1;
    }
    false
}


/// A vector of `n` flags, none of them set.
fn blank(n: usize) -> (flags: Vec<bool>)
    ensures
        flags@.len() == n,
        forall|i: int| 0 <= i < n ==> !flags@[i],
{
    let mut flags: Vec<bool> = Vec::new();
    let mut i: usize = 0;
    while i < n
        invariant
            i <= n,
            flags@.len() == i,
            forall|j: int| 0 <= j < i ==> !flags@[j],
        decreases n - i,
    {
        flags.push(false);
        i += 1;
    }
    flags
}

/// The positions that `seen` has not marked.
spec fn unseen(seen: Seq<bool>) -> Set<int> {
    Set::new(|i: int| 0 <= i < seen.len() && !seen[i])
}

/// Marking one more position, and clearing none, leaves fewer unmarked.
proof fn lemma_unseen_shrinks(a: Seq<bool>, b: Seq<bool>, i: int)
    requires
        a.len() == b.len(),
        forall|j: int| 0 <= j < a.len() && a[j] ==> b[j],
        0 <= i < a.len(),
        !a[i],
        b[i],
    ensures
        unseen(b).len() < unseen(a).len(),
{
    let full = set_int_range(0, a.len() as int);
    lemma_int_range(0, a.len() as int);
    assert(unseen(a).subset_of(full));
    lemma_len_subset(unseen(a), full);
    assert(unseen(a).contains(i));
    assert(unseen(b).subset_of(unseen(a).remove(i)));
    lemma_len_subset(unseen(b), unseen(a).remove(i));
}


/// What a sequence holds after one more item has been put at its end.
proof fn lemma_push_contains(items: Seq<usize>, a: usize, x: usize)
    ensures
        items.push(a).contains(x) == (items.contains(x) || x == a),
{
    let longer = items.push(a);
    if items.contains(x) {
        let j = choose|j: int| 0 <= j < items.len() && items[j] == x;
        assert(longer[j] == x);
    }
    if x == a {
        assert(longer[items.len() as int] == x);
    }
    if longer.contains(x) {
        let j = choose|j: int| 0 <= j < longer.len() && longer[j] == x;
        if j < items.len() {
            assert(items[j] == x);
        }
    }
}


/// The edges of a vertex and the number of parents it waits for. A graph
/// keeps them to itself: they speak of positions, which callers never see.
#[derive(Clone, Debug)]
pub struct Links {
    children: Vec<usize>,
    parents: Vec<usize>,
    parents_outstanding: usize,
}

/// One vertex of a [`DAG`]: its key, its neighbours and its traversal state.
#[derive(Clone, Debug)]
pub struct Vertex<T> {
    pub id: T,
    pub links: Links,
    pub state: State,
}

impl<T> Vertex<T> {
    /// The key of the vertex.
    pub open spec fn key(&self) -> T {
        self.id
    }

    /// The state of the vertex.
    pub open spec fn status(&self) -> State {
        self.state
    }

    /// The number of parents that the vertex still waits for.
    pub closed spec fn outstanding(&self) -> nat {
        self.links.parents_outstanding as nat
    }

    /// The number of edges that leave the vertex.
    pub closed spec fn child_count(&self) -> nat {
        self.links.children@.len()
    }

    /// The positions of the children and of the parents of the vertex.
    pub closed spec fn neighbours(&self) -> (Seq<usize>, Seq<usize>) {
        (self.links.children@, self.links.parents@)
    }

    /// The number of edges that enter the vertex.
    pub closed spec fn parent_count(&self) -> nat {
        self.links.parents@.len()
    }

    /// The number of parents that the vertex still waits for.
    pub fn parents_outstanding(&self) -> (n: usize)
        ensures
            n == self.outstanding(),
    {
        self.links.parents_outstanding
    }

    fn new(id: T) -> (v: Self)
        ensures
            v.id == id,
            v.state == State::Queued,
            v.outstanding() == 0,
            v.child_count() == 0,
            v.parent_count() == 0,
    {
        Vertex {
            id,
            links: Links { children: Vec::new(), parents: Vec::new(), parents_outstanding: 0 },
            state: State::Queued,
        }
    }
}

/// A directed acyclic graph over user-chosen keys that can be visited in
/// dependency order, and extended while a visit is under way.
#[derive(Debug)]
pub struct DAG<T> {
    pub vertices: Vec<Vertex<T>>,
    ready: Vec<bool>,
    visiting: Vec<bool>,
}

impl<T: PartialEq + Clone> DAG<T> {
    /// The number of vertices.
    pub closed spec fn size(&self) -> nat {
        self.vertices@.len()
    }

    /// The key of the vertex at position `i`.
    pub closed spec fn key(&self, i: int) -> T {
        self.vertices@[i].id
    }

    /// The vertex at position `i`.
    pub closed spec fn vertex(&self, i: int) -> Vertex<T> {
        self.vertices@[i]
    }

    /// The state of the vertex at position `i`.
    pub closed spec fn state(&self, i: int) -> State {
        self.vertices@[i].state
    }

    /// The number of parents that the vertex at position `i` still waits for.
    pub closed spec fn outstanding(&self, i: int) -> nat {
        self.vertices@[i].links.parents_outstanding as nat
    }

    /// The number of distinct parents of the vertex at position `i`.
    pub closed spec fn parent_count(&self, i: int) -> nat {
        self.vertices@[i].links.parents@.len()
    }

    /// Whether there is an edge from position `u` to position `v`.
    pub closed spec fn edge(&self, u: int, v: int) -> bool {
        &&& 0 <= u < self.vertices@.len()
        &&& 0 <= v < self.vertices@.len()
        &&& self.vertices@[u].links.children@.contains(v as usize)
    }

    /// Whether the vertex at position `i` is in the ready set.
    pub closed spec fn is_ready(&self, i: int) -> bool {
        0 <= i < self.ready@.len() && self.ready@[i]
    }

    /// Whether the vertex at position `i` is in the visiting set.
    pub closed spec fn is_visiting(&self, i: int) -> bool {
        0 <= i < self.visiting@.len() && self.visiting@[i]
    }

    /// Whether some vertex has the key `k`.
    pub open spec fn has_key(&self, k: T) -> bool {
        exists|i: int| 0 <= i < self.size() && #[trigger] self.key(i) == k
    }

    /// The position of the vertex with key `k`, where there is one.
    pub open spec fn index_of(&self, k: T) -> int {
        choose|i: int| 0 <= i < self.size() && #[trigger] self.key(i) == k
    }

    /// Whether `p` is a walk along edges: a non-empty sequence of positions
    /// in which each is joined to the next by an edge.
    pub open spec fn path(&self, p: Seq<int>) -> bool {
        &&& p.len() >= 1
        &&& 0 <= p[0] < self.size()
        &&& forall|i: int| 0 <= i < p.len() - 1 ==> #[trigger] self.step(p, i)
    }

    /// Whether an edge joins the position at index `i` of `p` to the next one.
    pub open spec fn step(&self, p: Seq<int>, i: int) -> bool {
        self.edge(p[i], p[i + 1])
    }

    /// Whether a walk leads from `u` to `v`. Every vertex reaches itself.
    pub open spec fn reachable(&self, u: int, v: int) -> bool {
        exists|p: Seq<int>| #[trigger] self.path(p) && p[0] == u && p.last() == v
    }

    /// No walk of one edge or more comes back to where it began.
    pub open spec fn acyclic(&self) -> bool {
        forall|p: Seq<int>| #[trigger] self.path(p) && p.len() >= 2 ==> p[0] != p.last()
    }

    /// The ready set holds exactly the queued vertices that wait for no parent.
    pub open spec fn ready_sound(&self) -> bool {
        forall|i: int|
            0 <= i < self.size() ==> (#[trigger] self.is_ready(i) <==> self.state(i)
                == State::Queued && self.outstanding(i) == 0)
    }

    /// No vertex is in the ready set and in the visiting set at once.
    pub open spec fn ready_visiting_disjoint(&self) -> bool {
        forall|i: int| 0 <= i < self.size() ==> !(#[trigger] self.is_ready(i) && self.is_visiting(i))
    }

    /// `self` and `other` have the same vertices, keys and edges.
    pub open spec fn same_graph(&self, other: &Self) -> bool {
        &&& self.size() == other.size()
        &&& forall|i: int| 0 <= i < self.size() ==> #[trigger] self.key(i) == other.key(i)
        &&& forall|i: int|
            0 <= i < self.size() ==> #[trigger] self.parent_count(i) == other.parent_count(i)
        &&& forall|u: int, v: int| #[trigger] self.edge(u, v) == other.edge(u, v)
    }

    /// `self` and `before` agree on the state, the counter and the set
    /// memberships of every position of `before` but `i`.
    pub open spec fn same_but(&self, before: &Self, i: int) -> bool {
        &&& forall|j: int|
            0 <= j < before.size() && j != i ==> #[trigger] self.state(j) == before.state(j)
        &&& forall|j: int|
            0 <= j < before.size() && j != i ==> #[trigger] self.outstanding(j)
                == before.outstanding(j)
        &&& forall|j: int|
            0 <= j < before.size() && j != i ==> #[trigger] self.is_ready(j) == before.is_ready(j)
        &&& forall|j: int|
            0 <= j < before.size() && j != i ==> #[trigger] self.is_visiting(j)
                == before.is_visiting(j)
    }

    spec fn links_ok(&self, i: int) -> bool {
        let v = self.vertices@[i];
        &&& v.links.children@.no_duplicates()
        &&& v.links.parents@.no_duplicates()
        &&& forall|k: int| 0 <= k < v.links.children@.len() ==> #[trigger] v.links.children@[k] < self.vertices@.len()
        &&& forall|k: int| 0 <= k < v.links.parents@.len() ==> #[trigger] v.links.parents@[k] < self.vertices@.len()
        &&& v.links.parents_outstanding <= v.links.parents@.len()
    }

    spec fn parent_link(&self, v: int, u: int) -> bool {
        &&& 0 <= u < self.vertices@.len()
        &&& 0 <= v < self.vertices@.len()
        &&& self.vertices@[v].links.parents@.contains(u as usize)
    }

    /// Everything about the graph but that it has no cycle.
    spec fn structure_ok(&self) -> bool {
        let n = self.vertices@.len();
        &&& keys_comparable::<T>()
        &&& n <= usize::MAX
        &&& self.ready@.len() == n
        &&& self.visiting@.len() == n
        &&& forall|i: int, j: int| 0 <= i < j < n ==> #[trigger] self.key(i) != #[trigger] self.key(j)
        &&& forall|i: int| 0 <= i < n ==> #[trigger] self.links_ok(i)
        &&& forall|u: int, v: int| #[trigger] self.edge(u, v) == self.parent_link(v, u)
        &&& forall|i: int|
            0 <= i < n ==> (#[trigger] self.visiting@[i] <==> self.vertices@[i].state
                == State::Running)
    }

    /// The invariant of the graph: keys are unique, edges join existing
    /// vertices, there is no cycle, no vertex waits for more parents than
    /// it has, and the visiting set holds exactly the running vertices.
    pub closed spec fn wf(&self) -> bool {
        &&& self.structure_ok()
        &&& self.acyclic()
    }

    /// Creates a new, empty graph. It is well-formed for every key type
    /// whose `==` decides equality.
    pub fn new() -> (dag: Self)
        ensures
            keys_comparable::<T>() ==> dag.wf(),
            dag.size() == 0,
            dag.ready_sound(),
            dag.counts_exact(),
    {
        let dag = DAG { vertices: Vec::new(), ready: Vec::new(), visiting: Vec::new() };
        assert(dag.acyclic()) by {
            assert forall|p: Seq<int>| #[trigger] dag.path(p) && p.len() >= 2 implies p[0]
                != p.last() by {}
        }
        dag
    }

    /// The position of the vertex with key `key`, if there is one.
    fn find(&self, key: &T) -> (r: Option<usize>)
        requires
            self.structure_ok(),
        ensures
            match r {
                Some(i) => i < self.size() && self.key(i as int) == *key && self.has_key(*key)
                    && self.index_of(*key) == i,
                None => !self.has_key(*key),
            },
    {
        let mut i: usize = 0;
        while i < self.vertices.len()
            invariant
                self.structure_ok(),
                i <= self.vertices@.len(),
                forall|j: int| 0 <= j < i ==> #[trigger] self.key(j) != *key,
            decreases self.vertices@.len() - i,
        {
            if self.vertices[i].id == *key {
                assert(self.key(i as int) == *key);
                return Some(i);
            }
            i += 1;
        }
        None
    }

    /// Returns the number of vertices in the graph.
    pub fn len(&mut self) -> (n: usize)
        ensures
            n == old(self).size(),
            *final(self) == *old(self),
    {
        self.vertices.len()
    }

    /// True if the graph has no vertices.
    pub fn is_empty(&mut self) -> (b: bool)
        ensures
            b == (old(self).size() == 0),
            *final(self) == *old(self),
    {
        self.vertices.len() == 0
    }

    /// `self` has every vertex of `before`, unchanged, at the same position
    /// and with the same edges, and no edge that `before` lacks.
    pub open spec fn keeps(&self, before: &Self) -> bool {
        &&& before.size() <= self.size()
        &&& forall|i: int| 0 <= i < before.size() ==> #[trigger] self.key(i) == before.key(i)
        &&& forall|i: int|
            0 <= i < before.size() ==> #[trigger] self.parent_count(i) == before.parent_count(i)
        &&& self.same_but(before, -1)
        &&& forall|u: int, v: int| #[trigger] self.edge(u, v) == before.edge(u, v)
    }

    /// `self` is `before` with one more vertex, which has the key `k`, no
    /// edges and the state `Queued`, and is ready.
    pub open spec fn is_extension_of(&self, before: &Self, k: T) -> bool {
        let n = before.size() as int;
        &&& self.size() == n + 1
        &&& self.keeps(before)
        &&& self.key(n) == k
        &&& self.fresh_at(n)
    }

    /// The vertex at position `i` is as a new vertex is: queued and ready,
    /// without parents.
    pub open spec fn fresh_at(&self, i: int) -> bool {
        &&& self.state(i) == State::Queued
        &&& self.outstanding(i) == 0
        &&& self.parent_count(i) == 0
        &&& self.is_ready(i)
        &&& !self.is_visiting(i)
    }

    /// A change of states and flags alone keeps the structure of the graph.
    proof fn lemma_retagged(&self, before: &Self)
        requires
            before.wf(),
            self.vertices@.len() == before.vertices@.len(),
            self.ready@.len() == before.ready@.len(),
            self.visiting@.len() == before.visiting@.len(),
            forall|i: int|
                0 <= i < self.vertices@.len() ==> (#[trigger] self.vertices@[i]).id
                    == before.vertices@[i].id && self.vertices@[i].links.children
                    == before.vertices@[i].links.children && self.vertices@[i].links.parents
                    == before.vertices@[i].links.parents,
            forall|i: int|
                0 <= i < self.vertices@.len() ==> (#[trigger] self.visiting@[i]
                    <==> self.vertices@[i].state == State::Running),
            forall|i: int|
                0 <= i < self.vertices@.len() ==> (#[trigger] self.vertices@[i]).links.parents_outstanding
                    <= before.vertices@[i].links.parents_outstanding
                    || self.vertices@[i].links.parents_outstanding <= self.vertices@[i].links.parents@.len(),
        ensures
            self.wf(),
            self.same_graph(before),
    {
        assert forall|i: int| 0 <= i < self.vertices@.len() implies #[trigger] self.links_ok(
            i,
        ) by {
            assert(before.links_ok(i));
            assert(self.vertices@[i].links.children == before.vertices@[i].links.children);
        }
        assert forall|u: int, v: int| #[trigger] self.edge(u, v) == before.edge(u, v) by {
            if 0 <= u < self.vertices@.len() {
                assert(self.vertices@[u].links.children == before.vertices@[u].links.children);
            }
        }
        assert forall|u: int, v: int| #[trigger]
            self.parent_link(v, u) == before.parent_link(v, u) by {
            if 0 <= v < self.vertices@.len() {
                assert(self.vertices@[v].links.parents == before.vertices@[v].links.parents);
            }
        }
        assert forall|u: int, v: int| #[trigger] self.edge(u, v) == self.parent_link(v, u) by {
            assert(before.edge(u, v) == before.parent_link(v, u));
        }
        assert forall|i: int, j: int| 0 <= i < j < self.vertices@.len() implies #[trigger] self.key(
            i,
        ) != #[trigger] self.key(j) by {
            assert(self.vertices@[i].id == before.vertices@[i].id);
            assert(self.vertices@[j].id == before.vertices@[j].id);
            assert(before.key(i) != before.key(j));
        }
        assert forall|i: int| 0 <= i < self.size() implies #[trigger] self.key(i) == before.key(
            i,
        ) by {
            assert(self.vertices@[i].id == before.vertices@[i].id);
        }
        assert forall|i: int| 0 <= i < self.size() implies #[trigger] self.parent_count(i)
            == before.parent_count(i) by {
            assert(self.vertices@[i].links.parents == before.vertices@[i].links.parents);
        }
        self.lemma_fewer_edges_acyclic(before);
    }

    /// `self` is `before` after the ready vertex at position `i` has been
    /// taken for a visit.
    pub open spec fn is_visit_of(&self, before: &Self, i: int) -> bool {
        &&& self.state(i) == State::Running
        &&& self.is_visiting(i)
        &&& !self.is_ready(i)
        &&& self.outstanding(i) == before.outstanding(i)
        &&& self.same_but(before, i)
    }

    /// A graph whose edges all occur in a graph without a cycle has none either.
    proof fn lemma_fewer_edges_acyclic(&self, other: &Self)
        requires
            other.acyclic(),
            forall|u: int, v: int| #[trigger] self.edge(u, v) ==> other.edge(u, v),
        ensures
            self.acyclic(),
    {
        assert forall|p: Seq<int>| #[trigger] self.path(p) && p.len() >= 2 implies p[0]
            != p.last() by {
            assert(self.step(p, 0));
            assert(other.edge(p[0], p[1]));
            assert forall|i: int| 0 <= i < p.len() - 1 implies #[trigger] other.step(p, i) by {
                assert(self.step(p, i));
            }
            assert(other.path(p));
        }
    }

    /// Returns a copy of the vertex identified by `key`, if it exists in the graph.
    pub fn get_vertex(&self, key: &T) -> (r: Option<Vertex<T>>)
        requires
            self.wf(),
        ensures
            match r {
                Some(v) => {
                    &&& self.has_key(*key)
                    &&& cloned(*key, v.id)
                    &&& v.state == self.state(self.index_of(*key))
                    &&& v.outstanding() == self.outstanding(self.index_of(*key))
                    &&& v.parent_count() == self.parent_count(self.index_of(*key))
                    &&& v.neighbours() == self.vertex(self.index_of(*key)).neighbours()
                },
                None => !self.has_key(*key),
            },
    {
        match self.find(key) {
            Some(idx) => {
                let v = &self.vertices[idx];
                let children = v.links.children.clone();
                let parents = v.links.parents.clone();
                assert(children@ =~= v.links.children@);
                assert(parents@ =~= v.links.parents@);
                Some(
                    Vertex {
                        id: v.id.clone(),
                        links: Links {
                            children,
                            parents,
                            parents_outstanding: v.links.parents_outstanding,
                        },
                        state: v.state,
                    },
                )
            },
            None => None,
        }
    }

    /// Adds a new vertex identified by `key`: queued, without edges, and ready.
    ///
    /// Fails with `DuplicateKey`, and changes nothing, if the key is taken.
    pub fn add_vertex(&mut self, key: T) -> (r: Result<(), DagError>)
        requires
            old(self).wf(),
        ensures
            final(self).wf(),
            old(self).has_key(key) ==> r == Err::<(), DagError>(DagError::DuplicateKey)
                && *final(self) == *old(self),
            !old(self).has_key(key) ==> r == Ok::<(), DagError>(())
                && final(self).is_extension_of(old(self), key),
            old(self).ready_sound() ==> final(self).ready_sound(),
    {
        match self.find(&key) {
            Some(_) => Err(DagError::DuplicateKey),
            None => {
                let ghost n = self.vertices@.len() as int;
                self.vertices.push(Vertex::new(key));
                self.ready.push(true);
                self.visiting.push(false);
                let longer = self.vertices.len();
                proof {
                    assert(longer == n + 1);
                    assert forall|i: int| 0 <= i < n + 1 implies #[trigger] self.links_ok(i) by {
                        if i < n {
                            assert(old(self).links_ok(i));
                        }
                    }
                    assert forall|u: int, v: int| #[trigger]
                        self.edge(u, v) == old(self).edge(u, v) by {
                        if 0 <= u < n && v == n {
                            assert(old(self).links_ok(u));
                        }
                    }
                    assert forall|u: int, v: int| #[trigger]
                        self.parent_link(v, u) == old(self).parent_link(v, u) by {
                        if 0 <= v < n && u == n {
                            assert(old(self).links_ok(v));
                        }
                    }
                    assert forall|u: int, v: int| #[trigger]
                        self.edge(u, v) == self.parent_link(v, u) by {
                        assert(old(self).edge(u, v) == old(self).parent_link(v, u));
                    }
                    assert forall|i: int, j: int| 0 <= i < j < n + 1 implies #[trigger] self.key(i)
                        != #[trigger] self.key(j) by {
                        if j == n {
                            assert(old(self).key(i) != key);
                        } else {
                            assert(old(self).key(i) != old(self).key(j));
                        }
                    }
                    self.lemma_fewer_edges_acyclic(old(self));
                    if old(self).ready_sound() {
                        assert forall|i: int| 0 <= i < self.size() implies (#[trigger] self.is_ready(
                            i,
                        ) <==> self.state(i) == State::Queued && self.outstanding(i) == 0) by {
                            if i < n {
                                assert(self.is_ready(i) == old(self).is_ready(i));
                                assert(self.state(i) == old(self).state(i));
                                assert(self.outstanding(i) == old(self).outstanding(i));
                            }
                        }
                    }
                }
                Ok(())
            },
        }
    }

    /// Adds new vertices with the keys in `keys`, one after the other, and
    /// stops at the first key that is taken: the vertices before it stay.
    pub fn add_vertices(&mut self, keys: &[T]) -> (r: Result<(), DagError>)
        requires
            old(self).wf(),
        ensures
            final(self).wf(),
            final(self).keeps(old(self)),
            old(self).size() <= final(self).size() <= old(self).size() + keys@.len(),
            forall|k: int|
                old(self).size() <= k < final(self).size() ==> #[trigger] final(self).fresh_at(k)
                    && cloned(keys@[k - old(self).size()], final(self).key(k)),
            match r {
                Ok(_) => final(self).size() == old(self).size() + keys@.len(),
                Err(e) => e == DagError::DuplicateKey && final(self).size() < old(self).size()
                    + keys@.len() && exists|j: int|
                    0 <= j < final(self).size() && cloned(
                        keys@[final(self).size() - old(self).size()],
                        #[trigger] final(self).key(j),
                    ),
            },
            old(self).ready_sound() ==> final(self).ready_sound(),
    {
        let ghost n0 = self.vertices@.len() as int;
        let mut i: usize = 0;
        while i < keys.len()
            invariant
                self.wf(),
                i <= keys@.len(),
                n0 == old(self).size(),
                self.size() == n0 + i,
                self.keeps(old(self)),
                forall|k: int|
                    n0 <= k < self.size() ==> #[trigger] self.fresh_at(k) && cloned(
                        keys@[k - n0],
                        self.key(k),
                    ),
                old(self).ready_sound() ==> self.ready_sound(),
            decreases keys@.len() - i,
        {
            let ghost before = *self;
            let key = keys[i].clone();
            match self.add_vertex(key) {
                Ok(()) => {},
                Err(_) => {
                    proof {
                        let j = before.index_of(key);
                        assert(cloned(keys@[i as int], self.key(j)));
                    }
                    return Err(DagError::DuplicateKey);
                },
            }
            proof {
                assert(self.is_extension_of(&before, key));
                assert forall|u: int, v: int| #[trigger]
                    self.edge(u, v) == old(self).edge(u, v) by {
                    assert(self.edge(u, v) == before.edge(u, v));
                    assert(before.edge(u, v) == old(self).edge(u, v));
                }
                assert forall|k: int| n0 <= k < self.size() implies #[trigger] self.fresh_at(k)
                    && cloned(keys@[k - n0], self.key(k)) by {
                    if k < before.size() {
                        assert(before.fresh_at(k));
                    }
                }
            }
            i += 1;
        }
        proof {
            assert forall|k: int| n0 <= k < self.size() implies #[trigger] self.fresh_at(k)
                && cloned(keys@[k - old(self).size()], self.key(k)) by {
                assert(self.fresh_at(k) && cloned(keys@[k - n0], self.key(k)));
            }
        }
        Ok(())
    }

    /// Every edge that leaves position `v` leads to a position that `seen` marks.
    spec fn closed_at(&self, seen: Seq<bool>, v: int) -> bool {
        forall|w: int| #[trigger] self.edge(v, w) ==> seen[w]
    }

    /// A walk that starts inside a set that no edge leaves stays inside it.
    proof fn lemma_closed_walk(&self, inside: spec_fn(int) -> bool, p: Seq<int>, k: int)
        requires
            self.path(p),
            inside(p[0]),
            0 <= k < p.len(),
            forall|u: int, v: int| inside(u) && #[trigger] self.edge(u, v) ==> inside(v),
        ensures
            inside(p[k]),
        decreases k,
    {
        if k > 0 {
            self.lemma_closed_walk(inside, p, k - 1);
            assert(self.step(p, k - 1));
        }
    }

    /// Every vertex reaches itself.
    pub proof fn lemma_reach_self(&self, u: int)
        requires
            0 <= u < self.size(),
        ensures
            self.reachable(u, u),
    {
        let p = seq![u];
        assert(self.path(p));
        assert(p[0] == u && p.last() == u);
    }

    /// An edge followed by a walk is a walk.
    pub proof fn lemma_reach_front(&self, u: int, c: int, v: int)
        requires
            self.edge(u, c),
            self.reachable(c, v),
        ensures
            self.reachable(u, v),
    {
        let q = choose|q: Seq<int>| #[trigger] self.path(q) && q[0] == c && q.last() == v;
        let p = seq![u] + q;
        assert forall|i: int| 0 <= i < p.len() - 1 implies #[trigger] self.step(p, i) by {
            if i > 0 {
                assert(self.step(q, i - 1));
                assert(p[i] == q[i - 1]);
                assert(p[i + 1] == q[i]);
            }
        }
        assert(self.path(p));
        assert(p[0] == u && p.last() == v);
    }

    /// A walk followed by an edge is a walk.
    pub proof fn lemma_reach_back(&self, u: int, w: int, v: int)
        requires
            self.reachable(u, w),
            self.edge(w, v),
        ensures
            self.reachable(u, v),
    {
        let q = choose|q: Seq<int>| #[trigger] self.path(q) && q[0] == u && q.last() == w;
        let p = q.push(v);
        assert forall|i: int| 0 <= i < p.len() - 1 implies #[trigger] self.step(p, i) by {
            if i < q.len() - 1 {
                assert(self.step(q, i));
            }
        }
        assert(self.path(p));
        assert(p[0] == u && p.last() == v);
    }

    /// Depth-first search for a walk from `src` to `dst` that skips the
    /// positions marked in `seen`, and marks those it passes.
    fn _has_path(&self, src: usize, dst: usize, seen: &mut Vec<bool>) -> (r: bool)
        requires
            self.structure_ok(),
            src < self.size(),
            dst < self.size(),
            old(seen)@.len() == self.size(),
        ensures
            final(seen)@.len() == self.size(),
            r ==> self.reachable(src as int, dst as int),
            !r ==> {
                &&& final(seen)@[src as int]
                &&& forall|v: int| 0 <= v < self.size() && old(seen)@[v] ==> final(seen)@[v]
                &&& final(seen)@[dst as int] ==> old(seen)@[dst as int]
                &&& forall|v: int|
                    0 <= v < self.size() && final(seen)@[v] && !old(seen)@[v]
                        ==> #[trigger] self.closed_at(final(seen)@, v)
            },
        decreases unseen(old(seen)@).len(),
    {
        if src == dst {
            proof {
                self.lemma_reach_self(src as int);
            }
            return true;
        }
        if seen[src] {
            return false;
        }
        seen.set(src, true);
        let n = self.vertices.len();
        let n_children = self.vertices[src].links.children.len();
        let mut k: usize = 0;
        while k < n_children
            invariant
                self.structure_ok(),
                src < self.size(),
                dst < self.size(),
                src != dst,
                n == self.size(),
                n_children == self.vertices@[src as int].links.children@.len(),
                k <= n_children,
                seen@.len() == self.size(),
                old(seen)@.len() == self.size(),
                !old(seen)@[src as int],
                seen@[src as int],
                forall|v: int| 0 <= v < self.size() && old(seen)@[v] ==> seen@[v],
                seen@[dst as int] ==> old(seen)@[dst as int],
                forall|v: int|
                    0 <= v < self.size() && seen@[v] && !old(seen)@[v] && v != src
                        ==> #[trigger] self.closed_at(seen@, v),
                forall|j: int|
                    0 <= j < k ==> 0 <= (#[trigger] self.vertices@[src as int].links.children@[j])
                        < self.size() && seen@[self.vertices@[src as int].links.children@[j] as int],
            decreases n_children - k,
        {
            let c = self.vertices[src].links.children[k];
            let ghost mid = seen@;
            proof {
                lemma_unseen_shrinks(old(seen)@, seen@, src as int);
                assert(self.links_ok(src as int));
                assert(self.vertices@[src as int].links.children@[k as int] < self.size());
                assert(self.edge(src as int, c as int));
            }
            if self._has_path(c, dst, seen) {
                proof {
                    self.lemma_reach_front(src as int, c as int, dst as int);
                }
                return true;
            }
            proof {
                assert forall|v: int|
                    0 <= v < self.size() && seen@[v] && !old(seen)@[v] && v
                        != src implies #[trigger] self.closed_at(seen@, v) by {
                    if mid[v] {
                        assert(self.closed_at(mid, v));
                        assert forall|w: int| #[trigger] self.edge(v, w) implies seen@[w] by {
                            assert(mid[w]);
                        }
                    }
                }
            }
            k += 1;
        }
        proof {
            assert forall|w: int| #[trigger] self.edge(src as int, w) implies seen@[w] by {
                let kids = self.vertices@[src as int].links.children@;
                assert(kids.contains(w as usize));
                let j = choose|j: int| 0 <= j < kids.len() && kids[j] == w as usize;
                assert(kids[j] == w);
            }
            assert(self.closed_at(seen@, src as int));
        }
        false
    }

    /// Returns true if there is a walk along edges from the vertex with key
    /// `src_key` to the one with key `dst_key`; every vertex reaches itself.
    ///
    /// Fails with `UnknownKey` if either key identifies no vertex.
    pub fn has_path(&self, src_key: &T, dst_key: &T) -> (r: Result<bool, DagError>)
        requires
            self.wf(),
        ensures
            match r {
                Ok(b) => self.has_key(*src_key) && self.has_key(*dst_key) && b == self.reachable(
                    self.index_of(*src_key),
                    self.index_of(*dst_key),
                ),
                Err(e) => e == DagError::UnknownKey && !(self.has_key(*src_key) && self.has_key(
                    *dst_key,
                )),
            },
    {
        let src = match self.find(src_key) {
            Some(i) => i,
            None => {
                return Err(DagError::UnknownKey);
            },
        };
        let dst = match self.find(dst_key) {
            Some(i) => i,
            None => {
                return Err(DagError::UnknownKey);
            },
        };
        let mut seen = blank(self.vertices.len());
        let ghost start = seen@;
        let found = self._has_path(src, dst, &mut seen);
        proof {
            if !found && self.reachable(src as int, dst as int) {
                let p = choose|p: Seq<int>| #[trigger]
                    self.path(p) && p[0] == src && p.last() == dst;
                let marks = seen@;
                let n = self.size() as int;
                let inside = |v: int| 0 <= v < n && marks[v];
                assert forall|u: int, v: int| inside(u) && #[trigger] self.edge(u, v) implies inside(
                    v,
                ) by {
                    assert(!start[u]);
                    assert(self.closed_at(marks, u));
                }
                self.lemma_closed_walk(inside, p, p.len() - 1);
                assert(inside(dst as int));
                assert(!start[dst as int]);
                assert(false);
            }
        }
        Ok(found)
    }

    /// `self` is `before` after an edge from position `s` to position `d`
    /// has been inserted: the edge is there, `d` waits for one parent more
    /// if the edge is new and `s` has not completed, and `d` is ready
    /// exactly if it waits for none.
    pub open spec fn has_new_edge(&self, before: &Self, s: int, d: int) -> bool {
        &&& self.size() == before.size()
        &&& forall|i: int| 0 <= i < before.size() ==> #[trigger] self.key(i) == before.key(i)
        &&& forall|u: int, v: int|
            #[trigger] self.edge(u, v) == (before.edge(u, v) || (u == s && v == d))
        &&& forall|i: int|
            0 <= i < before.size() && i != d ==> #[trigger] self.parent_count(i)
                == before.parent_count(i)
        &&& self.parent_count(d) == before.parent_count(d) + (if before.edge(s, d) {
            0nat
        } else {
            1nat
        })
        &&& self.same_but(before, d)
        &&& self.state(d) == before.state(d)
        &&& self.is_visiting(d) == before.is_visiting(d)
        &&& self.outstanding(d) == before.outstanding(d) + (if before.edge(s, d) || before.state(s)
            == State::Completed {
            0nat
        } else {
            1nat
        })
        &&& self.is_ready(d) == (self.outstanding(d) == 0)
    }

    /// One more edge, from `s` to `d`, closes no cycle where no walk led
    /// from `d` to `s`.
    proof fn lemma_new_edge_acyclic(&self, before: &Self, s: int, d: int)
        requires
            before.acyclic(),
            !before.reachable(d, s),
            self.size() == before.size(),
            0 <= s < before.size(),
            0 <= d < before.size(),
            forall|u: int, v: int|
                #[trigger] self.edge(u, v) == (before.edge(u, v) || (u == s && v == d)),
        ensures
            self.acyclic(),
    {
        assert forall|p: Seq<int>| #[trigger] self.path(p) && p.len() >= 2 implies p[0]
            != p.last() by {
            if p[0] == p.last() {
                if forall|i: int| 0 <= i < p.len() - 1 ==> !(p[i] == s && #[trigger] p[i + 1] == d) {
                    assert forall|i: int| 0 <= i < p.len() - 1 implies #[trigger] before.step(
                        p,
                        i,
                    ) by {
                        assert(self.step(p, i));
                        assert(!(p[i] == s && p[i + 1] == d));
                    }
                    assert(before.path(p));
                } else {
                    let i = choose|i: int| 0 <= i < p.len() - 1 && p[i] == s && #[trigger] p[i + 1] == d;
                    let inside = |w: int| before.reachable(d, w);
                    assert forall|u: int, v: int| inside(u) && #[trigger] self.edge(
                        u,
                        v,
                    ) implies inside(v) by {
                        if before.edge(u, v) {
                            before.lemma_reach_back(d, u, v);
                        }
                    }
                    before.lemma_reach_self(d);
                    let q = p.subrange(i + 1, p.len() as int);
                    assert forall|j: int| 0 <= j < q.len() - 1 implies #[trigger] self.step(
                        q,
                        j,
                    ) by {
                        assert(self.step(p, i + 1 + j));
                    }
                    assert(self.path(q));
                    self.lemma_closed_walk(inside, q, q.len() - 1);
                    assert(q.last() == p.last());
                    self.lemma_closed_walk(inside, p, i);
                }
            }
        }
    }

    /// Adds an edge from the vertex identified by `src_key` to the one
    /// identified by `dst_key`. The second vertex waits for one parent more
    /// if the edge is new and the first has not completed; an edge that is
    /// there already is not counted again. Afterwards the second vertex is
    /// ready exactly if it waits for no parent.
    ///
    /// Fails with `UnknownKey` if either key identifies no vertex, and with
    /// `Cycle` if a walk leads from the second vertex to the first; the
    /// graph is then unchanged.
    pub fn add_edge(&mut self, src_key: &T, dst_key: &T) -> (r: Result<(), DagError>)
        requires
            old(self).wf(),
        ensures
            final(self).wf(),
            match r {
                Ok(_) => {
                    &&& old(self).has_key(*src_key)
                    &&& old(self).has_key(*dst_key)
                    &&& !old(self).reachable(
                        old(self).index_of(*dst_key),
                        old(self).index_of(*src_key),
                    )
                    &&& final(self).has_new_edge(
                        old(self),
                        old(self).index_of(*src_key),
                        old(self).index_of(*dst_key),
                    )
                },
                Err(e) => {
                    &&& *final(self) == *old(self)
                    &&& if old(self).has_key(*src_key) && old(self).has_key(*dst_key) {
                        e == DagError::Cycle && old(self).reachable(
                            old(self).index_of(*dst_key),
                            old(self).index_of(*src_key),
                        )
                    } else {
                        e == DagError::UnknownKey
                    }
                },
            },
            r is Ok && old(self).ready_sound() && !(old(self).outstanding(
                old(self).index_of(*dst_key),
            ) == 0 && old(self).state(old(self).index_of(*dst_key)) != State::Queued && (old(
                self,
            ).state(old(self).index_of(*src_key)) == State::Completed || old(self).edge(
                old(self).index_of(*src_key),
                old(self).index_of(*dst_key),
            ))) ==> final(self).ready_sound(),
    {
        match self.has_path(dst_key, src_key) {
            Err(e) => {
                return Err(DagError::UnknownKey);
            },
            Ok(true) => {
                return Err(DagError::Cycle);
            },
            Ok(false) => {},
        }
        let src = match self.find(src_key) {
            Some(i) => i,
            None => {
                return Err(DagError::UnknownKey);
            },
        };
        let dst = match self.find(dst_key) {
            Some(i) => i,
            None => {
                return Err(DagError::UnknownKey);
            },
        };
        let n = self.vertices.len();
        proof {
            if src == dst {
                self.lemma_reach_self(src as int);
            }
            assert(self.links_ok(src as int));
            assert(self.links_ok(dst as int));
            assert(self.edge(src as int, dst as int) == self.parent_link(dst as int, src as int));
        }
        let ghost had = self.edge(src as int, dst as int);
        let present = holds(&self.vertices[src].links.children, dst);
        proof {
            if !had {
                let parents = self.parent_set(dst as int);
                let others = set_int_range(0, n as int).remove(src as int);
                self.lemma_parent_count(dst as int);
                lemma_int_range(0, n as int);
                assert(parents.subset_of(others));
                lemma_len_subset(parents, others);
                assert(self.vertices@[dst as int].links.parents@.len() < n);
            }
        }
        if !present {
            self.vertices[src].links.children.push(dst);
            self.vertices[dst].links.parents.push(src);
        }
        let ghost mid = *self;
        proof {
            let kids = old(self).vertices@[src as int].links.children@;
            let pars = old(self).vertices@[dst as int].links.parents@;
            assert(self.vertices@.len() == n);
            assert(self.vertices@[src as int].links.children@ == if had {
                kids
            } else {
                kids.push(dst)
            });
            assert(self.vertices@[dst as int].links.parents@ == if had {
                pars
            } else {
                pars.push(src)
            });
            assert forall|i: int| 0 <= i < n implies {
                &&& (#[trigger] self.vertices@[i]).id == old(self).vertices@[i].id
                &&& self.vertices@[i].state == old(self).vertices@[i].state
                &&& self.vertices@[i].links.parents_outstanding == old(
                    self,
                ).vertices@[i].links.parents_outstanding
                &&& i != src ==> self.vertices@[i].links.children@ == old(self).vertices@[i].links.children@
                &&& i != dst ==> self.vertices@[i].links.parents@ == old(self).vertices@[i].links.parents@
            } by {}
        }
        if !present {
            match self.vertices[src].state {
                State::Completed => {},
                _ => {
                    self.vertices[dst].links.parents_outstanding += 1;
                },
            }
        }
        if self.vertices[dst].links.parents_outstanding == 0 {
            self.ready.set(dst, true);
        } else {
            self.ready.set(dst, false);
        }
        proof {
            let s = src as int;
            let d = dst as int;
            assert(self.vertices@.len() == n);
            assert forall|i: int| 0 <= i < n implies {
                &&& (#[trigger] self.vertices@[i]).id == mid.vertices@[i].id
                &&& self.vertices@[i].state == mid.vertices@[i].state
                &&& self.vertices@[i].links.children@ == mid.vertices@[i].links.children@
                &&& self.vertices@[i].links.parents@ == mid.vertices@[i].links.parents@
                &&& i != dst ==> self.vertices@[i].links.parents_outstanding
                    == mid.vertices@[i].links.parents_outstanding
            } by {}
            assert forall|i: int| 0 <= i < n implies #[trigger] self.links_ok(i) by {
                assert(old(self).links_ok(i));
            }
            assert forall|u: int, v: int| #[trigger]
                self.edge(u, v) == (old(self).edge(u, v) || (u == s && v == d)) by {
                if 0 <= u < n && 0 <= v < n {
                    let kids = old(self).vertices@[u].links.children@;
                    if u == s && !had {
                        lemma_push_contains(kids, dst, v as usize);
                    } else {
                        assert(self.vertices@[u].links.children@ == kids);
                    }
                }
            }
            assert forall|u: int, v: int| #[trigger]
                self.parent_link(v, u) == (old(self).parent_link(v, u) || (u == s && v == d)) by {
                if 0 <= u < n && 0 <= v < n {
                    let pars = old(self).vertices@[v].links.parents@;
                    if v == d && !had {
                        lemma_push_contains(pars, src, u as usize);
                    } else {
                        assert(self.vertices@[v].links.parents@ == pars);
                    }
                }
            }
            assert forall|u: int, v: int| #[trigger] self.edge(u, v) == self.parent_link(v, u) by {
                assert(old(self).edge(u, v) == old(self).parent_link(v, u));
            }
            assert forall|i: int, j: int| 0 <= i < j < n implies #[trigger] self.key(i)
                != #[trigger] self.key(j) by {
                assert(old(self).key(i) != old(self).key(j));
            }
            self.lemma_new_edge_acyclic(old(self), s, d);
            assert(self.has_new_edge(old(self), s, d));
        }
        Ok(())
    }

    /// The counter of position `c` after the vertex at position `i` has
    /// completed: one less where `c` is a child of `i` and still waited.
    pub open spec fn released_count(&self, i: int, c: int) -> nat {
        if self.edge(i, c) && self.outstanding(c) > 0 {
            (self.outstanding(c) - 1) as nat
        } else {
            self.outstanding(c)
        }
    }

    /// `self` is `before` after the children of position `i` have been told
    /// that `i` completed: each counter is the released one, and the
    /// children whose counter fell to zero have become ready.
    pub open spec fn has_released(&self, before: &Self, i: int) -> bool {
        &&& forall|c: int|
            0 <= c < before.size() ==> #[trigger] self.outstanding(c) == before.released_count(
                i,
                c,
            )
        &&& forall|c: int|
            0 <= c < before.size() && c != i ==> #[trigger] self.is_ready(c) == (before.is_ready(c)
                || (before.edge(i, c) && before.outstanding(c) == 1))
    }

    /// `self` and `before` agree on every counter and on the ready set, but
    /// for the ready flag of position `i`.
    pub open spec fn same_counts(&self, before: &Self, i: int) -> bool {
        &&& forall|c: int|
            0 <= c < before.size() ==> #[trigger] self.outstanding(c) == before.outstanding(c)
        &&& forall|c: int|
            0 <= c < before.size() && c != i ==> #[trigger] self.is_ready(c) == before.is_ready(c)
    }

    /// `self` and `before` agree on the state and on the visiting flag of
    /// every position but `i`.
    pub open spec fn same_states_but(&self, before: &Self, i: int) -> bool {
        &&& forall|j: int|
            0 <= j < before.size() && j != i ==> #[trigger] self.state(j) == before.state(j)
        &&& forall|j: int|
            0 <= j < before.size() && j != i ==> #[trigger] self.is_visiting(j)
                == before.is_visiting(j)
    }

    /// `self` is `before` after the visit of position `i` has ended, with a
    /// failure if `errored` and with success if not.
    pub open spec fn is_completion_of(&self, before: &Self, i: int, errored: bool) -> bool {
        &&& !self.is_visiting(i)
        &&& self.is_ready(i) == before.is_ready(i)
        &&& self.same_states_but(before, i)
        &&& if errored {
            self.state(i) == State::Errored && self.same_counts(before, i)
        } else {
            self.state(i) == State::Completed && self.has_released(before, i)
        }
    }

    /// Whether a vertex in state `from` may be put into state `to`.
    pub open spec fn may_become(from: State, to: State) -> bool {
        ||| from == to
        ||| to == State::Completed
        ||| to == State::Errored
        ||| to == State::Killed
        ||| (to == State::Queued && (from == State::Errored || from == State::Killed))
    }

    /// `self` is `before` after the vertex at position `i`, which had
    /// another state, has been put into state `to`.
    pub open spec fn is_transition_of(&self, before: &Self, i: int, to: State) -> bool {
        &&& self.state(i) == to
        &&& !self.is_visiting(i)
        &&& self.same_states_but(before, i)
        &&& self.is_ready(i) == (to == State::Queued)
        &&& if to == State::Completed {
            self.has_released(before, i)
        } else {
            self.same_counts(before, i)
        }
    }

    /// Tells the children of the vertex at `idx` that it has completed.
    fn release_children(&mut self, idx: usize)
        requires
            old(self).structure_ok(),
            idx < old(self).vertices@.len(),
        ensures
            final(self).vertices@.len() == old(self).vertices@.len(),
            final(self).visiting@ == old(self).visiting@,
            final(self).ready@.len() == old(self).ready@.len(),
            forall|i: int|
                0 <= i < old(self).vertices@.len() ==> {
                    &&& (#[trigger] final(self).vertices@[i]).id == old(self).vertices@[i].id
                    &&& final(self).vertices@[i].links.children == old(self).vertices@[i].links.children
                    &&& final(self).vertices@[i].links.parents == old(self).vertices@[i].links.parents
                    &&& final(self).vertices@[i].state == old(self).vertices@[i].state
                },
            forall|c: int|
                0 <= c < old(self).vertices@.len() ==> #[trigger] final(self).outstanding(c) == old(
                    self,
                ).released_count(idx as int, c),
            forall|c: int|
                0 <= c < old(self).vertices@.len() ==> #[trigger] final(self).is_ready(c) == (old(
                    self,
                ).is_ready(c) || (old(self).edge(idx as int, c) && old(self).outstanding(c) == 1)),
    {
        let n = self.vertices.len();
        let n_children = self.vertices[idx].links.children.len();
        let ghost kids = self.vertices@[idx as int].links.children@;
        let mut k: usize = 0;
        while k < n_children
            invariant
                old(self).structure_ok(),
                idx < n,
                n == old(self).vertices@.len(),
                self.vertices@.len() == n,
                self.ready@.len() == n,
                self.visiting@ == old(self).visiting@,
                kids == old(self).vertices@[idx as int].links.children@,
                n_children == kids.len(),
                k <= n_children,
                forall|i: int|
                    0 <= i < n ==> {
                        &&& (#[trigger] self.vertices@[i]).id == old(self).vertices@[i].id
                        &&& self.vertices@[i].links.children == old(self).vertices@[i].links.children
                        &&& self.vertices@[i].links.parents == old(self).vertices@[i].links.parents
                        &&& self.vertices@[i].state == old(self).vertices@[i].state
                    },
                forall|c: int|
                    0 <= c < n ==> #[trigger] self.outstanding(c) == (if kids.subrange(
                        0,
                        k as int,
                    ).contains(c as usize) && old(self).outstanding(c) > 0 {
                        (old(self).outstanding(c) - 1) as nat
                    } else {
                        old(self).outstanding(c)
                    }),
                forall|c: int|
                    0 <= c < n ==> #[trigger] self.is_ready(c) == (old(self).is_ready(c) || (
                    kids.subrange(0, k as int).contains(c as usize) && old(self).outstanding(c)
                        == 1)),
            decreases n_children - k,
        {
            let child = self.vertices[idx].links.children[k];
            let ghost done = kids.subrange(0, k as int);
            let ghost mid = *self;
            proof {
                assert(old(self).links_ok(idx as int));
                assert(kids[k as int] < n);
                assert(!done.contains(child)) by {
                    if done.contains(child) {
                        let j = choose|j: int| 0 <= j < done.len() && done[j] == child;
                        assert(kids[j] == kids[k as int]);
                    }
                }
                assert(mid.outstanding(child as int) == old(self).outstanding(child as int));
            }
            if self.vertices[child].links.parents_outstanding > 0 {
                self.vertices[child].links.parents_outstanding -= 1;
                if self.vertices[child].links.parents_outstanding == 0 {
                    self.ready.set(child, true);
                }
            }
            proof {
                assert(kids.subrange(0, k + 1) == done.push(child));
                assert forall|c: int| 0 <= c < n implies #[trigger] self.outstanding(c) == (
                if kids.subrange(0, k + 1).contains(c as usize) && old(self).outstanding(c) > 0 {
                    (old(self).outstanding(c) - 1) as nat
                } else {
                    old(self).outstanding(c)
                }) by {
                    lemma_push_contains(done, child, c as usize);
                    if c != child {
                        assert(self.outstanding(c) == mid.outstanding(c));
                    }
                }
                assert forall|c: int| 0 <= c < n implies #[trigger] self.is_ready(c) == (old(
                    self,
                ).is_ready(c) || (kids.subrange(0, k + 1).contains(c as usize) && old(
                    self,
                ).outstanding(c) == 1)) by {
                    lemma_push_contains(done, child, c as usize);
                    if c != child {
                        assert(self.is_ready(c) == mid.is_ready(c));
                    } else {
                        assert(mid.is_ready(c) == old(self).is_ready(c));
                        assert(mid.outstanding(c) == old(self).outstanding(c));
                    }
                }
            }
            k += 1;
        }
        proof {
            assert(kids.subrange(0, k as int) == kids);
        }
    }

    /// Ends the visit of the vertex identified by `key`: it becomes
    /// `Errored` if `errored`, and else `Completed`, which releases its
    /// children.
    ///
    /// Fails with `UnknownKey` if `key` identifies no vertex, and with
    /// `NotVisiting` if the vertex is not being visited; the graph is then
    /// unchanged.
    pub fn complete_visit(&mut self, key: &T, errored: bool) -> (r: Result<(), DagError>)
        requires
            old(self).wf(),
        ensures
            final(self).wf(),
            final(self).same_graph(old(self)),
            match r {
                Ok(_) => {
                    &&& old(self).has_key(*key)
                    &&& old(self).is_visiting(old(self).index_of(*key))
                    &&& final(self).is_completion_of(old(self), old(self).index_of(*key), errored)
                },
                Err(e) => {
                    &&& *final(self) == *old(self)
                    &&& if !old(self).has_key(*key) {
                        e == DagError::UnknownKey
                    } else {
                        e == DagError::NotVisiting && !old(self).is_visiting(
                            old(self).index_of(*key),
                        )
                    }
                },
            },
            r is Ok && old(self).ready_sound() && (errored || old(self).releases_queued(
                old(self).index_of(*key),
            )) ==> final(self).ready_sound(),
    {
        let idx = match self.find(key) {
            Some(i) => i,
            None => {
                return Err(DagError::UnknownKey);
            },
        };
        if !self.visiting[idx] {
            return Err(DagError::NotVisiting);
        }
        self.visiting.set(idx, false);
        if self.vertices[idx].state == State::Completed {
            return Ok(());
        }
        if errored {
            self.vertices[idx].state = State::Errored;
            proof {
                self.lemma_retagged(old(self));
            }
        } else {
            self.vertices[idx].state = State::Completed;
            let ghost mid = *self;
            proof {
                mid.lemma_retagged(old(self));
                assert forall|c: int| 0 <= c < mid.size() implies mid.released_count(idx as int, c)
                    == old(self).released_count(idx as int, c) by {
                    assert(mid.edge(idx as int, c) == old(self).edge(idx as int, c));
                }
                mid.lemma_no_self_edge(idx as int);
            }
            self.release_children(idx);
            proof {
                assert forall|i: int| 0 <= i < self.vertices@.len() implies (#[trigger] self.vertices@[i]).links.parents_outstanding
                    <= mid.vertices@[i].links.parents_outstanding by {
                    assert(self.outstanding(i) == mid.released_count(idx as int, i));
                }
                self.lemma_retagged(&mid);
                assert forall|u: int, v: int| #[trigger]
                    self.edge(u, v) == old(self).edge(u, v) by {
                    assert(mid.edge(u, v) == old(self).edge(u, v));
                }
            }
        }
        proof {
            assert(self.is_completion_of(old(self), idx as int, errored));
            assert(old(self).state(idx as int) == State::Running);
            if old(self).ready_sound() && (errored || old(self).releases_queued(idx as int)) {
                assert forall|c: int| 0 <= c < self.size() implies (#[trigger] self.is_ready(c)
                    <==> self.state(c) == State::Queued && self.outstanding(c) == 0) by {
                    assert(old(self).is_ready(c) <==> old(self).state(c) == State::Queued && old(
                        self,
                    ).outstanding(c) == 0);
                    if !errored && old(self).edge(idx as int, c) {
                        assert(self.outstanding(c) == old(self).released_count(idx as int, c));
                    }
                }
            }
        }
        Ok(())
    }

    /// Every child of position `i` that waits for one parent only is queued.
    pub open spec fn releases_queued(&self, i: int) -> bool {
        forall|c: int|
            #[trigger] self.edge(i, c) && self.outstanding(c) == 1 ==> self.state(c)
                == State::Queued
    }

    /// No vertex of a well-formed graph has an edge to itself.
    pub proof fn lemma_no_self_edge(&self, i: int)
        requires
            self.wf(),
        ensures
            !self.edge(i, i),
    {
        if self.edge(i, i) {
            let p = seq![i, i];
            assert forall|j: int| 0 <= j < p.len() - 1 implies #[trigger] self.step(p, j) by {}
            assert(self.path(p));
        }
    }

    /// `self` is `before` after a reset: every counter is the number of
    /// parents, and the vertices without parents have joined the ready set.
    pub open spec fn is_reset_of(&self, before: &Self) -> bool {
        &&& self.same_states_but(before, -1)
        &&& forall|i: int|
            0 <= i < before.size() ==> #[trigger] self.outstanding(i) == before.parent_count(i)
        &&& forall|i: int|
            0 <= i < before.size() ==> #[trigger] self.is_ready(i) == (before.is_ready(i)
                || before.parent_count(i) == 0)
    }

    /// Every vertex without parents is queued, and every ready vertex is
    /// without parents: the graph is as it was built, before any visit.
    pub open spec fn is_unvisited(&self) -> bool {
        &&& forall|i: int|
            0 <= i < self.size() && #[trigger] self.parent_count(i) == 0 ==> self.state(i)
                == State::Queued
        &&& forall|i: int|
            0 <= i < self.size() && #[trigger] self.is_ready(i) ==> self.parent_count(i) == 0
    }

    /// Prepares the graph for a traversal from the start: every vertex
    /// waits for all of its parents again, and those without parents join
    /// the ready set. The states of the vertices stay as they are.
    pub fn reset(&mut self)
        requires
            old(self).wf(),
        ensures
            final(self).wf(),
            final(self).same_graph(old(self)),
            final(self).is_reset_of(old(self)),
            old(self).is_unvisited() ==> final(self).ready_sound(),
    {
        let n = self.vertices.len();
        let mut i: usize = 0;
        while i < n
            invariant
                old(self).wf(),
                i <= n,
                n == old(self).vertices@.len(),
                self.vertices@.len() == n,
                self.ready@.len() == n,
                self.visiting@ == old(self).visiting@,
                forall|j: int|
                    0 <= j < n ==> {
                        &&& (#[trigger] self.vertices@[j]).id == old(self).vertices@[j].id
                        &&& self.vertices@[j].links.children == old(self).vertices@[j].links.children
                        &&& self.vertices@[j].links.parents == old(self).vertices@[j].links.parents
                        &&& self.vertices@[j].state == old(self).vertices@[j].state
                    },
                forall|j: int|
                    0 <= j < i ==> #[trigger] self.outstanding(j) == old(self).parent_count(j),
                forall|j: int|
                    0 <= j < i ==> #[trigger] self.is_ready(j) == (old(self).is_ready(j) || old(
                        self,
                    ).parent_count(j) == 0),
                forall|j: int| i <= j < n ==> #[trigger] self.is_ready(j) == old(self).is_ready(j),
            decreases n - i,
        {
            let ghost mid = *self;
            let count = self.vertices[i].links.parents.len();
            self.vertices[i].links.parents_outstanding = count;
            if count == 0 {
                self.ready.set(i, true);
            }
            proof {
                assert forall|j: int| 0 <= j < i + 1 implies #[trigger] self.outstanding(j) == old(
                    self,
                ).parent_count(j) by {
                    if j < i {
                        assert(self.outstanding(j) == mid.outstanding(j));
                    }
                }
                assert forall|j: int| 0 <= j < i + 1 implies #[trigger] self.is_ready(j) == (old(
                    self,
                ).is_ready(j) || old(self).parent_count(j) == 0) by {
                    if j < i {
                        assert(self.is_ready(j) == mid.is_ready(j));
                    } else {
                        assert(mid.is_ready(j) == old(self).is_ready(j));
                    }
                }
                assert forall|j: int| i + 1 <= j < n implies #[trigger] self.is_ready(j) == old(
                    self,
                ).is_ready(j) by {
                    assert(self.is_ready(j) == mid.is_ready(j));
                }
            }
            i += 1;
        }
        proof {
            assert forall|j: int| 0 <= j < n implies (#[trigger] self.vertices@[j]).links.parents_outstanding
                <= self.vertices@[j].links.parents@.len() by {
                assert(self.outstanding(j) == old(self).parent_count(j));
            }
            self.lemma_retagged(old(self));
            if old(self).is_unvisited() {
                assert forall|c: int| 0 <= c < self.size() implies (#[trigger] self.is_ready(c)
                    <==> self.state(c) == State::Queued && self.outstanding(c) == 0) by {
                    assert(self.outstanding(c) == old(self).parent_count(c));
                    assert(self.state(c) == old(self).state(c));
                    if old(self).is_ready(c) {
                        assert(old(self).parent_count(c) == 0);
                    }
                }
            }
        }
    }

    /// Puts the vertex identified by `key` into `state`, whatever the
    /// traversal has done with it. Asking for the state it has changes
    /// nothing. `Completed` takes the vertex out of both sets and releases
    /// its children; `Errored` and `Killed` take it out of both sets;
    /// `Queued`, allowed from `Errored` and `Killed` only, puts it back into
    /// the ready set without looking at its parents.
    ///
    /// Fails with `UnknownKey` if `key` identifies no vertex, and with
    /// `BadTransition` for any other change; the graph is then unchanged.
    pub fn set_vertex_state(&mut self, key: &T, state: State) -> (r: Result<(), DagError>)
        requires
            old(self).wf(),
        ensures
            final(self).wf(),
            final(self).same_graph(old(self)),
            match r {
                Ok(_) => {
                    &&& old(self).has_key(*key)
                    &&& Self::may_become(old(self).state(old(self).index_of(*key)), state)
                    &&& if old(self).state(old(self).index_of(*key)) == state {
                        *final(self) == *old(self)
                    } else {
                        final(self).is_transition_of(old(self), old(self).index_of(*key), state)
                    }
                },
                Err(e) => {
                    &&& *final(self) == *old(self)
                    &&& if !old(self).has_key(*key) {
                        e == DagError::UnknownKey
                    } else {
                        e == DagError::BadTransition && !Self::may_become(
                            old(self).state(old(self).index_of(*key)),
                            state,
                        )
                    }
                },
            },
            r is Ok && old(self).ready_sound() && old(self).fits_transition(
                old(self).index_of(*key),
                state,
            ) ==> final(self).ready_sound(),
    {
        let idx = match self.find(key) {
            Some(i) => i,
            None => {
                return Err(DagError::UnknownKey);
            },
        };
        let cur = self.vertices[idx].state;
        if cur == state {
            return Ok(());
        }
        match state {
            State::Completed => {
                self.ready.set(idx, false);
                self.visiting.set(idx, false);
                self.vertices[idx].state = State::Completed;
                let ghost mid = *self;
                proof {
                    mid.lemma_retagged(old(self));
                    assert forall|c: int| 0 <= c < mid.size() implies mid.released_count(
                        idx as int,
                        c,
                    ) == old(self).released_count(idx as int, c) by {
                        assert(mid.edge(idx as int, c) == old(self).edge(idx as int, c));
                    }
                    mid.lemma_no_self_edge(idx as int);
                }
                self.release_children(idx);
                proof {
                    assert forall|i: int| 0 <= i < self.vertices@.len() implies (#[trigger] self.vertices@[i]).links.parents_outstanding
                        <= mid.vertices@[i].links.parents_outstanding by {
                        assert(self.outstanding(i) == mid.released_count(idx as int, i));
                    }
                    self.lemma_retagged(&mid);
                    assert forall|u: int, v: int| #[trigger]
                        self.edge(u, v) == old(self).edge(u, v) by {
                        assert(mid.edge(u, v) == old(self).edge(u, v));
                    }
                    assert forall|c: int| 0 <= c < self.size() && c != idx implies #[trigger] self.is_ready(c)
                        == (old(self).is_ready(c) || (old(self).edge(idx as int, c) && old(
                        self,
                    ).outstanding(c) == 1)) by {
                        assert(mid.is_ready(c) == old(self).is_ready(c));
                        assert(mid.outstanding(c) == old(self).outstanding(c));
                        assert(mid.edge(idx as int, c) == old(self).edge(idx as int, c));
                    }
                }
            },
            State::Queued => {
                match cur {
                    State::Errored | State::Killed => {
                        self.ready.set(idx, true);
                        self.vertices[idx].state = State::Queued;
                        proof {
                            self.lemma_retagged(old(self));
                        }
                    },
                    _ => {
                        return Err(DagError::BadTransition);
                    },
                }
            },
            State::Errored | State::Killed => {
                self.ready.set(idx, false);
                self.visiting.set(idx, false);
                self.vertices[idx].state = state;
                proof {
                    self.lemma_retagged(old(self));
                }
            },
            State::Running => {
                return Err(DagError::BadTransition);
            },
        }
        proof {
            assert(self.is_transition_of(old(self), idx as int, state));
            if old(self).ready_sound() && old(self).fits_transition(idx as int, state) {
                assert forall|c: int| 0 <= c < self.size() implies (#[trigger] self.is_ready(c)
                    <==> self.state(c) == State::Queued && self.outstanding(c) == 0) by {
                    assert(old(self).is_ready(c) <==> old(self).state(c) == State::Queued && old(
                        self,
                    ).outstanding(c) == 0);
                    if state == State::Completed && old(self).edge(idx as int, c) {
                        assert(self.outstanding(c) == old(self).released_count(idx as int, c));
                    }
                }
            }
        }
        Ok(())
    }

    /// The condition under which putting position `i` into state `to` keeps
    /// the ready set sound: a vertex is queued again only if it waits for no
    /// parent, and a completion releases queued children only.
    pub open spec fn fits_transition(&self, i: int, to: State) -> bool {
        &&& to == State::Queued && self.state(i) != State::Queued ==> self.outstanding(i) == 0
        &&& to == State::Completed && self.state(i) != State::Completed ==> self.releases_queued(i)
    }

    /// Every parent of position `i` has completed.
    pub open spec fn parents_completed(&self, i: int) -> bool {
        forall|u: int| #[trigger] self.edge(u, i) ==> self.state(u) == State::Completed
    }

    /// What made position `i` the next to visit: it was ready; where the
    /// ready set was sound it was queued and waited for no parent; and
    /// where the counters were exact too, all its parents had completed.
    pub open spec fn was_due(&self, i: int) -> bool {
        &&& self.is_ready(i)
        &&& self.ready_sound() ==> self.state(i) == State::Queued && self.outstanding(i) == 0
        &&& self.ready_sound() && self.counts_exact() ==> self.parents_completed(i)
    }

    /// Returns the key of some ready vertex, or `None` if no vertex is ready
    /// to be visited. The vertex leaves the ready set, enters the visiting
    /// set and becomes `Running`.
    pub fn visit_next(&mut self) -> (r: Option<T>)
        requires
            old(self).wf(),
        ensures
            final(self).wf(),
            final(self).same_graph(old(self)),
            match r {
                Some(k) => exists|i: int|
                    0 <= i < old(self).size() && #[trigger] old(self).was_due(i) && cloned(
                        old(self).key(i),
                        k,
                    ) && final(self).is_visit_of(old(self), i),
                None => *final(self) == *old(self) && forall|i: int|
                    0 <= i < old(self).size() ==> !#[trigger] old(self).is_ready(i),
            },
            r is None && old(self).ready_sound() ==> forall|i: int|
                0 <= i < old(self).size() ==> !(#[trigger] old(self).state(i) == State::Queued
                    && old(self).outstanding(i) == 0),
            old(self).ready_sound() ==> final(self).ready_sound(),
    {
        match first_set(&self.ready) {
            Some(idx) => {
                self.vertices[idx].state = State::Running;
                self.ready.set(idx, false);
                self.visiting.set(idx, true);
                let key = self.vertices[idx].id.clone();
                proof {
                    assert(old(self).is_ready(idx as int));
                    self.lemma_retagged(old(self));
                    assert(self.is_visit_of(old(self), idx as int));
                    if old(self).ready_sound() && old(self).counts_exact() {
                        assert forall|u: int| #[trigger]
                            old(self).edge(u, idx as int) implies old(self).state(u)
                            == State::Completed by {
                            old(self).lemma_parents_completed(u, idx as int);
                        }
                    }
                    assert(old(self).was_due(idx as int));
                }
                Some(key)
            },
            None => {
                proof {
                    if self.ready_sound() {
                        assert forall|i: int| 0 <= i < self.size() implies !(#[trigger] self.state(
                            i,
                        ) == State::Queued && self.outstanding(i) == 0) by {
                            assert(!self.is_ready(i));
                        }
                    }
                }
                None
            },
        }
    }

    /// Is there any progress still to be had: is a vertex ready or being visited.
    pub fn can_progress(&self) -> (b: bool)
        requires
            self.wf(),
        ensures
            b == ((exists|i: int| 0 <= i < self.size() && #[trigger] self.is_ready(i)) || (exists|
                i: int,
            | 0 <= i < self.size() && #[trigger] self.is_visiting(i))),
    {
        let r = first_set(&self.ready);
        let v = first_set(&self.visiting);
        proof {
            if let Some(i) = r {
                assert(self.is_ready(i as int));
            }
            if let Some(i) = v {
                assert(self.is_visiting(i as int));
            }
        }
        r.is_some() || v.is_some()
    }

    /// Are the ready set and the visiting set both empty. This holds after a
    /// full traversal, and also when every vertex that is left waits for one
    /// that failed.
    pub fn is_complete(&self) -> (b: bool)
        requires
            self.wf(),
        ensures
            b == ((forall|i: int| 0 <= i < self.size() ==> !#[trigger] self.is_ready(i)) && (forall|
                i: int,
            | 0 <= i < self.size() ==> !#[trigger] self.is_visiting(i))),
    {
        let r = first_set(&self.ready);
        let v = first_set(&self.visiting);
        proof {
            if let Some(i) = r {
                assert(self.is_ready(i as int));
            }
            if let Some(i) = v {
                assert(self.is_visiting(i as int));
            }
        }
        r.is_none() && v.is_none()
    }

    // What holds of the graph, and of the operations together.

    /// The parents of position `c` that have not completed.
    pub open spec fn waiting_parents(&self, c: int) -> Set<int> {
        Set::new(|u: int| self.edge(u, c) && self.state(u) != State::Completed)
    }

    /// Every counter is the number of parents that have not completed.
    pub open spec fn counts_exact(&self) -> bool {
        forall|c: int|
            0 <= c < self.size() ==> #[trigger] self.outstanding(c) == self.waiting_parents(c).len()
    }

    /// Edges join positions of the graph only.
    pub proof fn lemma_edge_bounds(&self, u: int, v: int)
        requires
            self.edge(u, v),
        ensures
            0 <= u < self.size(),
            0 <= v < self.size(),
    {
    }

    /// In a well-formed graph no two vertices have the same key.
    pub proof fn lemma_keys_unique(&self, i: int, j: int)
        requires
            self.wf(),
            0 <= i < self.size(),
            0 <= j < self.size(),
            self.key(i) == self.key(j),
        ensures
            i == j,
    {
        if i < j {
            assert(self.key(i) != self.key(j));
        }
        if j < i {
            assert(self.key(j) != self.key(i));
        }
    }

    /// In a well-formed graph the key of a vertex leads back to its position.
    pub proof fn lemma_index_of_key(&self, i: int)
        requires
            self.wf(),
            0 <= i < self.size(),
        ensures
            self.has_key(self.key(i)),
            self.index_of(self.key(i)) == i,
    {
        let j = self.index_of(self.key(i));
        self.lemma_keys_unique(i, j);
    }

    /// A well-formed graph has no cycle.
    pub proof fn lemma_wf_acyclic(&self)
        requires
            self.wf(),
        ensures
            self.acyclic(),
    {
    }

    /// In a well-formed graph no walk leads back along an edge: where an
    /// edge joins `u` to `v`, `v` does not reach `u`.
    pub proof fn lemma_no_way_back(&self, u: int, v: int)
        requires
            self.wf(),
            self.edge(u, v),
        ensures
            !self.reachable(v, u),
    {
        if self.reachable(v, u) {
            let q = choose|q: Seq<int>| #[trigger] self.path(q) && q[0] == v && q.last() == u;
            self.lemma_reach_front(u, v, u);
            let p = seq![u] + q;
            assert forall|i: int| 0 <= i < p.len() - 1 implies #[trigger] self.step(p, i) by {
                if i > 0 {
                    assert(self.step(q, i - 1));
                    assert(p[i] == q[i - 1]);
                    assert(p[i + 1] == q[i]);
                }
            }
            assert(self.path(p));
            assert(p.last() == u);
        }
    }

    /// The visiting set of a well-formed graph holds exactly the running vertices.
    pub proof fn lemma_visiting_is_running(&self)
        requires
            self.wf(),
        ensures
            forall|i: int|
                0 <= i < self.size() ==> (#[trigger] self.is_visiting(i) <==> self.state(i)
                    == State::Running),
    {
        assert forall|i: int| 0 <= i < self.size() implies (#[trigger] self.is_visiting(i)
            <==> self.state(i) == State::Running) by {
            assert(self.visiting@[i] <==> self.vertices@[i].state == State::Running);
        }
    }

    /// Where the ready set is sound, no vertex is both ready and visiting.
    pub proof fn lemma_ready_visiting_disjoint(&self)
        requires
            self.wf(),
            self.ready_sound(),
        ensures
            self.ready_visiting_disjoint(),
    {
        self.lemma_visiting_is_running();
    }

    /// The parents of a vertex that wait are finitely many.
    proof fn lemma_waiting_finite(&self, c: int)
        ensures
            self.waiting_parents(c).finite(),
    {
        let full = set_int_range(0, self.size() as int);
        lemma_int_range(0, self.size() as int);
        assert(self.waiting_parents(c).subset_of(full));
        lemma_len_subset(self.waiting_parents(c), full);
    }

    /// Where the counters are exact, a vertex that waits for no parent has
    /// completed parents only: a ready vertex is visited after its parents.
    pub proof fn lemma_parents_completed(&self, u: int, c: int)
        requires
            self.wf(),
            self.counts_exact(),
            self.edge(u, c),
            self.outstanding(c) == 0,
        ensures
            self.state(u) == State::Completed,
    {
        self.lemma_waiting_finite(c);
        if self.state(u) != State::Completed {
            assert(self.waiting_parents(c).contains(u));
            assert(self.waiting_parents(c).len() == 0);
            assert(self.waiting_parents(c) =~= Set::empty());
        }
    }

    /// Where the counters are exact, the completion of a vertex takes
    /// exactly one from the counter of each of its children.
    pub proof fn lemma_release_takes_one(&self, v: int, c: int)
        requires
            self.wf(),
            self.counts_exact(),
            self.edge(v, c),
            self.state(v) != State::Completed,
        ensures
            self.outstanding(c) >= 1,
            self.released_count(v, c) == self.outstanding(c) - 1,
    {
        self.lemma_waiting_finite(c);
        assert(self.waiting_parents(c).contains(v));
        if self.waiting_parents(c).len() == 0 {
            assert(self.waiting_parents(c) =~= Set::empty());
        }
    }

    /// The positions that have an edge to position `v`.
    pub open spec fn parent_set(&self, v: int) -> Set<int> {
        Set::new(|u: int| self.edge(u, v))
    }

    /// The number of parents that is kept for a vertex is the number of
    /// vertices that have an edge to it.
    pub proof fn lemma_parent_count(&self, v: int)
        requires
            self.wf(),
            0 <= v < self.size(),
        ensures
            self.parent_set(v).finite(),
            self.parent_count(v) == self.parent_set(v).len(),
    {
        let pars = self.vertices@[v].links.parents@;
        let ints = Seq::new(pars.len(), |i: int| pars[i] as int);
        assert(self.links_ok(v));
        assert(ints.no_duplicates());
        ints.unique_seq_to_set();
        seq_to_set_is_finite(ints);
        assert forall|u: int| ints.to_set().contains(u) == self.parent_set(v).contains(u) by {
            assert(self.edge(u, v) == self.parent_link(v, u));
            if ints.contains(u) {
                let i = choose|i: int| 0 <= i < ints.len() && ints[i] == u;
                assert(pars[i] == u as usize);
                assert(pars[i] < self.vertices@.len());
            }
            if self.parent_link(v, u) {
                let i = choose|i: int| 0 <= i < pars.len() && pars[i] == u as usize;
                assert(ints[i] == u);
            }
        }
        assert(ints.to_set() =~= self.parent_set(v));
    }

    /// After a reset of a graph in which no vertex has completed, the
    /// counters are exact.
    pub proof fn lemma_reset_counts(before: &Self, after: &Self)
        requires
            before.wf(),
            after.wf(),
            forall|i: int| 0 <= i < before.size() ==> #[trigger] before.state(i) != State::Completed,
            after.same_graph(before),
            after.is_reset_of(before),
        ensures
            after.counts_exact(),
    {
        assert forall|c: int| 0 <= c < after.size() implies #[trigger] after.outstanding(c)
            == after.waiting_parents(c).len() by {
            after.lemma_parent_count(c);
            assert(after.parent_count(c) == before.parent_count(c));
            assert forall|u: int|
                after.waiting_parents(c).contains(u) == after.parent_set(c).contains(u) by {
                if after.edge(u, c) {
                    assert(after.state(u) == before.state(u));
                    assert(before.state(u) != State::Completed);
                }
            }
            assert(after.waiting_parents(c) =~= after.parent_set(c));
        }
    }

    /// Taking a vertex that has not completed for a visit keeps the
    /// counters exact.
    pub proof fn lemma_visit_keeps_counts(before: &Self, after: &Self, i: int)
        requires
            before.wf(),
            before.counts_exact(),
            0 <= i < before.size(),
            before.state(i) != State::Completed,
            after.same_graph(before),
            after.is_visit_of(before, i),
        ensures
            after.counts_exact(),
    {
        assert forall|c: int| 0 <= c < after.size() implies #[trigger] after.outstanding(c)
            == after.waiting_parents(c).len() by {
            assert forall|u: int|
                after.waiting_parents(c).contains(u) == before.waiting_parents(c).contains(u) by {
                assert(after.edge(u, c) == before.edge(u, c));
                if before.edge(u, c) && u != i {
                    assert(after.state(u) == before.state(u));
                }
            }
            assert(after.waiting_parents(c) =~= before.waiting_parents(c));
            assert(after.outstanding(c) == before.outstanding(c));
        }
    }

    /// The end of a visit keeps the counters exact: a failure changes none,
    /// and a success takes the vertex out of what each child waits for.
    pub proof fn lemma_completion_keeps_counts(before: &Self, after: &Self, v: int, errored: bool)
        requires
            before.wf(),
            before.counts_exact(),
            0 <= v < before.size(),
            before.state(v) != State::Completed,
            after.same_graph(before),
            after.is_completion_of(before, v, errored),
        ensures
            after.counts_exact(),
    {
        assert forall|c: int| 0 <= c < after.size() implies #[trigger] after.outstanding(c)
            == after.waiting_parents(c).len() by {
            before.lemma_waiting_finite(c);
            let took = !errored && before.edge(v, c);
            assert forall|u: int|
                after.waiting_parents(c).contains(u) == (before.waiting_parents(c).contains(u) && !(
                took && u == v)) by {
                assert(after.edge(u, c) == before.edge(u, c));
                if before.edge(u, c) && u != v {
                    assert(after.state(u) == before.state(u));
                }
            }
            if took {
                assert(after.waiting_parents(c) =~= before.waiting_parents(c).remove(v));
                assert(before.waiting_parents(c).contains(v));
                before.lemma_release_takes_one(v, c);
                assert(after.outstanding(c) == before.released_count(v, c));
            } else {
                assert(after.waiting_parents(c) =~= before.waiting_parents(c));
                if errored {
                    assert(after.outstanding(c) == before.outstanding(c));
                } else {
                    assert(after.outstanding(c) == before.released_count(v, c));
                }
            }
        }
    }

    /// A new vertex keeps the counters exact.
    pub proof fn lemma_new_vertex_keeps_counts(before: &Self, after: &Self, k: T)
        requires
            before.wf(),
            before.counts_exact(),
            after.is_extension_of(before, k),
        ensures
            after.counts_exact(),
    {
        let n = before.size() as int;
        assert forall|c: int| 0 <= c < after.size() implies #[trigger] after.outstanding(c)
            == after.waiting_parents(c).len() by {
            if c < n {
                assert forall|u: int|
                    after.waiting_parents(c).contains(u) == before.waiting_parents(c).contains(
                        u,
                    ) by {
                    assert(after.edge(u, c) == before.edge(u, c));
                    if before.edge(u, c) {
                        assert(after.state(u) == before.state(u));
                    }
                }
                assert(after.waiting_parents(c) =~= before.waiting_parents(c));
                assert(after.outstanding(c) == before.outstanding(c));
            } else {
                assert forall|u: int| !after.waiting_parents(c).contains(u) by {
                    assert(after.edge(u, c) == before.edge(u, c));
                }
                assert(after.waiting_parents(c) =~= Set::empty());
            }
        }
    }

    /// An inserted edge keeps the counters exact: its target waits for one
    /// parent more exactly if the edge is new and its source has not completed.
    pub proof fn lemma_new_edge_keeps_counts(before: &Self, after: &Self, s: int, d: int)
        requires
            before.wf(),
            before.counts_exact(),
            0 <= s < before.size(),
            0 <= d < before.size(),
            after.has_new_edge(before, s, d),
        ensures
            after.counts_exact(),
    {
        assert forall|c: int| 0 <= c < after.size() implies #[trigger] after.outstanding(c)
            == after.waiting_parents(c).len() by {
            before.lemma_waiting_finite(c);
            let waits = c == d && !before.edge(s, d) && before.state(s) != State::Completed;
            assert forall|u: int|
                after.waiting_parents(c).contains(u) == (before.waiting_parents(c).contains(u) || (
                waits && u == s)) by {
                assert(after.edge(u, c) == (before.edge(u, c) || (u == s && c == d)));
                if 0 <= u < before.size() {
                    if u == d {
                        assert(after.state(u) == before.state(u));
                    } else {
                        assert(after.state(u) == before.state(u));
                    }
                }
            }
            if waits {
                assert(after.waiting_parents(c) =~= before.waiting_parents(c).insert(s));
                assert(!before.waiting_parents(c).contains(s));
            } else {
                assert(after.waiting_parents(c) =~= before.waiting_parents(c));
                if c != d {
                    assert(after.outstanding(c) == before.outstanding(c));
                }
            }
        }
    }

    /// From `a` to `b` the ready vertex at position `i` is taken for a visit.
    pub open spec fn is_start(a: &Self, b: &Self, i: int) -> bool {
        &&& 0 <= i < a.size()
        &&& a.is_ready(i)
        &&& b.same_graph(a)
        &&& b.is_visit_of(a, i)
    }

    /// From `a` to `b` the visit of the vertex at position `i` ends with success.
    pub open spec fn is_finish(a: &Self, b: &Self, i: int) -> bool {
        &&& 0 <= i < a.size()
        &&& a.is_visiting(i)
        &&& b.same_graph(a)
        &&& b.is_completion_of(a, i, false)
    }

    /// From `a` to `b` a vertex with a new key is added.
    pub open spec fn is_growth(a: &Self, b: &Self) -> bool {
        exists|k: T| #[trigger] b.is_extension_of(a, k)
    }

    /// From `a` to `b` an edge is added from position `s` to position `d`,
    /// which no visit has taken yet.
    pub open spec fn is_link(a: &Self, b: &Self, s: int, d: int) -> bool {
        &&& 0 <= s < a.size()
        &&& 0 <= d < a.size()
        &&& a.state(d) == State::Queued
        &&& b.has_new_edge(a, s, d)
    }

    /// From `a` to `b` leads one move of a run: a visit starts or ends with
    /// success, a vertex is added, or an edge is added to a vertex that no
    /// visit has taken.
    pub open spec fn is_move(a: &Self, b: &Self) -> bool {
        &&& b.wf()
        &&& {
            ||| exists|i: int| #[trigger] Self::is_start(a, b, i)
            ||| exists|i: int| #[trigger] Self::is_finish(a, b, i)
            ||| Self::is_growth(a, b)
            ||| exists|s: int, d: int| #[trigger] Self::is_link(a, b, s, d)
        }
    }

    /// `states` is a run: it begins with a graph in which every vertex is
    /// queued, the ready set is sound and the counters are exact, and goes
    /// on by moves. Visits may overlap, and the graph may grow between them.
    pub open spec fn is_run(states: Seq<Self>) -> bool {
        &&& states.len() >= 1
        &&& states[0].wf()
        &&& states[0].ready_sound()
        &&& states[0].counts_exact()
        &&& forall|i: int|
            0 <= i < states[0].size() ==> #[trigger] states[0].state(i) == State::Queued
        &&& forall|m: int| 0 <= m < states.len() - 1 ==> #[trigger] Self::moves_at(states, m)
    }

    /// Move `m` of `states` is a move.
    pub open spec fn moves_at(states: Seq<Self>, m: int) -> bool {
        Self::is_move(&states[m], &states[m + 1])
    }

    /// Move `j` of `states` starts the visit of the vertex at position `i`.
    pub open spec fn started_at(states: Seq<Self>, j: int, i: int) -> bool {
        Self::is_start(&states[j], &states[j + 1], i)
    }

    /// What holds of the graph after `m` moves of a run.
    spec fn run_inv(states: Seq<Self>, m: int) -> bool {
        let s = states[m];
        &&& s.wf()
        &&& s.ready_sound()
        &&& s.counts_exact()
        &&& forall|i: int|
            0 <= i < s.size() && #[trigger] s.state(i) != State::Queued ==> {
                &&& s.state(i) == State::Running || s.state(i) == State::Completed
                &&& s.outstanding(i) == 0
                &&& exists|j: int| 0 <= j < m && #[trigger] Self::started_at(states, j, i)
            }
        &&& forall|u: int, v: int|
            #[trigger] s.edge(u, v) && s.state(v) != State::Queued ==> s.state(u)
                == State::Completed
    }

    /// The start of a visit keeps what holds of a run.
    proof fn lemma_start_keeps(states: Seq<Self>, m: int, i: int)
        requires
            0 <= m < states.len() - 1,
            Self::run_inv(states, m),
            states[m + 1].wf(),
            Self::is_start(&states[m], &states[m + 1], i),
        ensures
            Self::run_inv(states, m + 1),
    {
        let a = states[m];
        let b = states[m + 1];
        assert(a.state(i) == State::Queued && a.outstanding(i) == 0);
        Self::lemma_visit_keeps_counts(&a, &b, i);
        a.lemma_no_self_edge(i);
        assert forall|x: int| 0 <= x < b.size() implies (#[trigger] b.is_ready(x) <==> b.state(x)
            == State::Queued && b.outstanding(x) == 0) by {
            if x != i {
                assert(b.state(x) == a.state(x));
                assert(b.outstanding(x) == a.outstanding(x));
                assert(b.is_ready(x) == a.is_ready(x));
                assert(a.is_ready(x) <==> a.state(x) == State::Queued && a.outstanding(x) == 0);
            }
        }
        assert forall|x: int| 0 <= x < b.size() && #[trigger] b.state(x) != State::Queued implies {
            &&& b.state(x) == State::Running || b.state(x) == State::Completed
            &&& b.outstanding(x) == 0
            &&& exists|j: int| 0 <= j < m + 1 && #[trigger] Self::started_at(states, j, x)
        } by {
            if x != i {
                assert(b.state(x) == a.state(x));
                assert(b.outstanding(x) == a.outstanding(x));
                let j = choose|j: int| 0 <= j < m && #[trigger] Self::started_at(states, j, x);
                assert(Self::started_at(states, j, x));
            } else {
                assert(Self::started_at(states, m, x));
            }
        }
        assert forall|u: int, v: int| #[trigger] b.edge(u, v) && b.state(v)
            != State::Queued implies b.state(u) == State::Completed by {
            assert(b.edge(u, v) == a.edge(u, v));
            a.lemma_edge_bounds(u, v);
            if v == i {
                a.lemma_parents_completed(u, v);
            } else {
                assert(b.state(v) == a.state(v));
            }
            assert(a.state(u) == State::Completed);
            assert(b.state(u) == a.state(u));
        }
    }

    /// The successful end of a visit keeps what holds of a run.
    proof fn lemma_finish_keeps(states: Seq<Self>, m: int, i: int)
        requires
            0 <= m < states.len() - 1,
            Self::run_inv(states, m),
            states[m + 1].wf(),
            Self::is_finish(&states[m], &states[m + 1], i),
        ensures
            Self::run_inv(states, m + 1),
    {
        let a = states[m];
        let b = states[m + 1];
        a.lemma_visiting_is_running();
        assert(a.state(i) == State::Running);
        assert(a.outstanding(i) == 0);
        Self::lemma_completion_keeps_counts(&a, &b, i, false);
        a.lemma_no_self_edge(i);
        assert forall|x: int| 0 <= x < b.size() implies (#[trigger] b.is_ready(x) <==> b.state(x)
            == State::Queued && b.outstanding(x) == 0) by {
            assert(b.outstanding(x) == a.released_count(i, x));
            assert(a.is_ready(x) <==> a.state(x) == State::Queued && a.outstanding(x) == 0);
            if x != i {
                assert(b.state(x) == a.state(x));
                assert(b.is_ready(x) == (a.is_ready(x) || (a.edge(i, x) && a.outstanding(x)
                    == 1)));
            } else {
                assert(b.is_ready(x) == a.is_ready(x));
            }
        }
        assert forall|x: int| 0 <= x < b.size() && #[trigger] b.state(x) != State::Queued implies {
            &&& b.state(x) == State::Running || b.state(x) == State::Completed
            &&& b.outstanding(x) == 0
            &&& exists|j: int| 0 <= j < m + 1 && #[trigger] Self::started_at(states, j, x)
        } by {
            assert(b.outstanding(x) == a.released_count(i, x));
            if x != i {
                assert(b.state(x) == a.state(x));
            }
            assert(a.state(x) != State::Queued);
            let j = choose|j: int| 0 <= j < m && #[trigger] Self::started_at(states, j, x);
            assert(Self::started_at(states, j, x));
        }
        assert forall|u: int, v: int| #[trigger] b.edge(u, v) && b.state(v)
            != State::Queued implies b.state(u) == State::Completed by {
            assert(b.edge(u, v) == a.edge(u, v));
            a.lemma_edge_bounds(u, v);
            if v != i {
                assert(b.state(v) == a.state(v));
            }
            assert(a.state(v) != State::Queued);
            assert(a.state(u) == State::Completed);
            if u != i {
                assert(b.state(u) == a.state(u));
            }
        }
    }

    /// A new vertex keeps what holds of a run.
    proof fn lemma_growth_keeps(states: Seq<Self>, m: int)
        requires
            0 <= m < states.len() - 1,
            Self::run_inv(states, m),
            states[m + 1].wf(),
            Self::is_growth(&states[m], &states[m + 1]),
        ensures
            Self::run_inv(states, m + 1),
    {
        let a = states[m];
        let b = states[m + 1];
        let k = choose|k: T| #[trigger] b.is_extension_of(&a, k);
        let n = a.size() as int;
        Self::lemma_new_vertex_keeps_counts(&a, &b, k);
        assert forall|x: int| 0 <= x < b.size() implies (#[trigger] b.is_ready(x) <==> b.state(x)
            == State::Queued && b.outstanding(x) == 0) by {
            if x < n {
                assert(b.state(x) == a.state(x));
                assert(b.outstanding(x) == a.outstanding(x));
                assert(b.is_ready(x) == a.is_ready(x));
                assert(a.is_ready(x) <==> a.state(x) == State::Queued && a.outstanding(x) == 0);
            }
        }
        assert forall|x: int| 0 <= x < b.size() && #[trigger] b.state(x) != State::Queued implies {
            &&& b.state(x) == State::Running || b.state(x) == State::Completed
            &&& b.outstanding(x) == 0
            &&& exists|j: int| 0 <= j < m + 1 && #[trigger] Self::started_at(states, j, x)
        } by {
            assert(x < n);
            assert(b.state(x) == a.state(x));
            assert(b.outstanding(x) == a.outstanding(x));
            let j = choose|j: int| 0 <= j < m && #[trigger] Self::started_at(states, j, x);
            assert(Self::started_at(states, j, x));
        }
        assert forall|u: int, v: int| #[trigger] b.edge(u, v) && b.state(v)
            != State::Queued implies b.state(u) == State::Completed by {
            assert(b.edge(u, v) == a.edge(u, v));
            a.lemma_edge_bounds(u, v);
            assert(b.state(v) == a.state(v));
            assert(b.state(u) == a.state(u));
        }
    }

    /// A new edge to a vertex that no visit has taken keeps what holds of a run.
    proof fn lemma_link_keeps(states: Seq<Self>, m: int, s: int, d: int)
        requires
            0 <= m < states.len() - 1,
            Self::run_inv(states, m),
            states[m + 1].wf(),
            Self::is_link(&states[m], &states[m + 1], s, d),
        ensures
            Self::run_inv(states, m + 1),
    {
        let a = states[m];
        let b = states[m + 1];
        Self::lemma_new_edge_keeps_counts(&a, &b, s, d);
        assert forall|x: int| 0 <= x < b.size() implies (#[trigger] b.is_ready(x) <==> b.state(x)
            == State::Queued && b.outstanding(x) == 0) by {
            if x != d {
                assert(b.state(x) == a.state(x));
                assert(b.outstanding(x) == a.outstanding(x));
                assert(b.is_ready(x) == a.is_ready(x));
                assert(a.is_ready(x) <==> a.state(x) == State::Queued && a.outstanding(x) == 0);
            }
        }
        assert forall|x: int| 0 <= x < b.size() && #[trigger] b.state(x) != State::Queued implies {
            &&& b.state(x) == State::Running || b.state(x) == State::Completed
            &&& b.outstanding(x) == 0
            &&& exists|j: int| 0 <= j < m + 1 && #[trigger] Self::started_at(states, j, x)
        } by {
            assert(x != d);
            assert(b.state(x) == a.state(x));
            assert(b.outstanding(x) == a.outstanding(x));
            let j = choose|j: int| 0 <= j < m && #[trigger] Self::started_at(states, j, x);
            assert(Self::started_at(states, j, x));
        }
        assert forall|u: int, v: int| #[trigger] b.edge(u, v) && b.state(v)
            != State::Queued implies b.state(u) == State::Completed by {
            assert(b.edge(u, v) == (a.edge(u, v) || (u == s && v == d)));
            assert(v != d);
            a.lemma_edge_bounds(u, v);
            assert(b.state(v) == a.state(v));
            if u != d {
                assert(b.state(u) == a.state(u));
            }
        }
    }

    /// Throughout a run the graph is well-formed, the ready set is sound
    /// and apart from the visiting set, and the counters are exact.
    pub proof fn lemma_run_invariants(states: Seq<Self>, m: int)
        requires
            Self::is_run(states),
            0 <= m < states.len(),
        ensures
            states[m].wf(),
            states[m].ready_sound(),
            states[m].ready_visiting_disjoint(),
            states[m].counts_exact(),
    {
        Self::lemma_run_inv(states, m);
        states[m].lemma_ready_visiting_disjoint();
    }

    /// What holds of a run holds after each of its moves.
    proof fn lemma_run_inv(states: Seq<Self>, m: int)
        requires
            Self::is_run(states),
            0 <= m < states.len(),
        ensures
            Self::run_inv(states, m),
        decreases m,
    {
        if m > 0 {
            Self::lemma_run_inv(states, m - 1);
            let a = states[m - 1];
            let b = states[m];
            assert(Self::moves_at(states, m - 1));
            if exists|i: int| #[trigger] Self::is_start(&a, &b, i) {
                let i = choose|i: int| #[trigger] Self::is_start(&a, &b, i);
                Self::lemma_start_keeps(states, m - 1, i);
            } else if exists|i: int| #[trigger] Self::is_finish(&a, &b, i) {
                let i = choose|i: int| #[trigger] Self::is_finish(&a, &b, i);
                Self::lemma_finish_keeps(states, m - 1, i);
            } else if Self::is_growth(&a, &b) {
                Self::lemma_growth_keeps(states, m - 1);
            } else {
                let (s, d) = choose|s: int, d: int| #[trigger] Self::is_link(&a, &b, s, d);
                Self::lemma_link_keeps(states, m - 1, s, d);
            }
        }
    }

    /// Once the visit of the vertex at position `v` has started, the vertex
    /// stays beyond `Queued`, and no edge to it is added.
    proof fn lemma_started_stays(states: Seq<Self>, k: int, m: int, v: int, u: int)
        requires
            Self::is_run(states),
            0 <= k < m < states.len(),
            Self::started_at(states, k, v),
        ensures
            0 <= v < states[m].size(),
            states[m].state(v) != State::Queued,
            states[m].edge(u, v) ==> states[k].edge(u, v),
        decreases m,
    {
        if m > k + 1 {
            Self::lemma_started_stays(states, k, m - 1, v, u);
            let a = states[m - 1];
            let b = states[m];
            assert(Self::moves_at(states, m - 1));
            if exists|i: int| #[trigger] Self::is_start(&a, &b, i) {
                let i = choose|i: int| #[trigger] Self::is_start(&a, &b, i);
                assert(b.edge(u, v) == a.edge(u, v));
                if v != i {
                    assert(b.state(v) == a.state(v));
                }
            } else if exists|i: int| #[trigger] Self::is_finish(&a, &b, i) {
                let i = choose|i: int| #[trigger] Self::is_finish(&a, &b, i);
                assert(b.edge(u, v) == a.edge(u, v));
                if v != i {
                    assert(b.state(v) == a.state(v));
                }
            } else if Self::is_growth(&a, &b) {
                let key = choose|key: T| #[trigger] b.is_extension_of(&a, key);
                assert(b.edge(u, v) == a.edge(u, v));
                assert(b.state(v) == a.state(v));
            } else {
                let (s, d) = choose|s: int, d: int| #[trigger] Self::is_link(&a, &b, s, d);
                assert(b.edge(u, v) == (a.edge(u, v) || (u == s && v == d)));
                assert(b.state(v) == a.state(v));
            }
        } else {
            let a = states[k];
            let b = states[k + 1];
            assert(b.edge(u, v) == a.edge(u, v));
        }
    }

    /// A run visits every vertex after all of its parents: where move `k`
    /// starts the visit of `v`, and an edge leads from `u` to `v` at any
    /// later time, an earlier move has started the visit of `u`.
    pub proof fn lemma_parents_first(states: Seq<Self>, k: int, m: int, u: int, v: int)
        requires
            Self::is_run(states),
            0 <= k < m < states.len(),
            Self::started_at(states, k, v),
            states[m].edge(u, v),
        ensures
            exists|j: int| 0 <= j < k && #[trigger] Self::started_at(states, j, u),
    {
        Self::lemma_started_stays(states, k, m, v, u);
        Self::lemma_run_inv(states, k);
        let a = states[k];
        assert(a.edge(u, v));
        assert(a.is_ready(v));
        assert(a.outstanding(v) == 0);
        a.lemma_parents_completed(u, v);
        a.lemma_edge_bounds(u, v);
        assert(a.state(u) != State::Queued);
    }
}

impl<T: PartialEq + Clone> Default for DAG<T> {
    /// The empty graph.
    fn default() -> (dag: Self)
        ensures
            keys_comparable::<T>() ==> dag.wf(),
            dag.size() == 0,
            dag.ready_sound(),
            dag.counts_exact(),
    {
        DAG::new()
    }
}

} // verus!
