//! The intent graph's structure: which node depends on which, what each is
//! tagged, and which carry a material. How a shape is computed is no concern
//! of this module; what it reads of a node is only how the node links to
//! others.

use vstd::prelude::*;
use crate::text::{blank, is_blank, decimal, decimal_string, hex_digits, quoted, debug_string, push_str};
use crate::checks::{Number, Sign};

verus! {

/// Index into [`Doc::nodes`].
pub type NodeId = usize;

/// How the fillet surface meets its neighbouring faces.
#[derive(Debug, Clone, Copy, PartialEq, Eq, Structural)]
pub enum FilletContinuity {
    /// Tangent (G1) continuity, the exact backend's current mode.
    Tangent,
    /// Curvature (G2) continuity, reserved until the exact backend supports it.
    Curvature,
}

impl Default for FilletContinuity {
    fn default() -> (d: Self)
        ensures
            d == FilletContinuity::Tangent,
    {
        FilletContinuity::Tangent
    }
}

/// How a fillet resolves the corner where several selected edges meet.
#[derive(Debug, Clone, Copy, PartialEq, Eq, Structural)]
pub enum FilletCorner {
    /// Extend spherical rolling-ball patches through the corner.
    RollingBall,
    /// Trim the adjacent fillets back from the corner by a setback.
    Setback,
}

impl Default for FilletCorner {
    fn default() -> (d: Self)
        ensures
            d == FilletCorner::RollingBall,
    {
        FilletCorner::RollingBall
    }
}

/// The geometric recipe for a constant-radius edge fillet.
#[derive(Debug, Clone, Copy, PartialEq, Eq, Structural)]
pub struct FilletRecipe {
    pub continuity: FilletContinuity,
    pub corner: FilletCorner,
}

impl Default for FilletRecipe {
    fn default() -> (d: Self)
        ensures
            d == (FilletRecipe { continuity: FilletContinuity::Tangent, corner: FilletCorner::RollingBall }),
    {
        FilletRecipe { continuity: FilletContinuity::default(), corner: FilletCorner::default() }
    }
}

impl FilletRecipe {
    /// Whether the recipe is the one an older graph that wrote none means, and
    /// so one a writer leaves out.
    pub fn is_default(recipe: &Self) -> (b: bool)
        ensures
            b == (recipe.continuity == FilletContinuity::Tangent && recipe.corner == FilletCorner::RollingBall),
    {
        let d = FilletRecipe::default();
        recipe.continuity == d.continuity && recipe.corner == d.corner
    }
}

/// How planar chamfers join where several selected edges meet.
#[derive(Debug, Clone, Copy, PartialEq, Eq, Structural)]
pub enum ChamferCorner {
    /// Continue the planar bevel through the shared corner.
    Chamfer,
    /// Meet bevels at a miter point.
    Miter,
    /// Blend the bevel into neighbouring faces.
    Blend,
}

impl Default for ChamferCorner {
    fn default() -> (d: Self)
        ensures
            d == ChamferCorner::Chamfer,
    {
        ChamferCorner::Chamfer
    }
}

/// The geometric recipe for an equal-distance edge chamfer.
#[derive(Debug, Clone, Copy, PartialEq, Eq, Structural)]
pub struct ChamferRecipe {
    pub corner: ChamferCorner,
}

impl Default for ChamferRecipe {
    fn default() -> (d: Self)
        ensures
            d == (ChamferRecipe { corner: ChamferCorner::Chamfer }),
    {
        ChamferRecipe { corner: ChamferCorner::default() }
    }
}

impl ChamferRecipe {
    /// Whether the recipe is the default one, which a writer leaves out.
    pub fn is_default(recipe: &Self) -> (b: bool)
        ensures
            b == (recipe.corner == ChamferCorner::Chamfer),
    {
        recipe.corner == ChamferRecipe::default().corner
    }
}

/// Which way a helix winds: right-handed turns anticlockwise seen from +Z
/// as it rises, which is a standard thread.
#[derive(Debug, Clone, Copy, PartialEq, Eq, Structural)]
pub enum Hand {
    Right,
    Left,
}

impl Default for Hand {
    fn default() -> (d: Self)
        ensures
            d == Hand::Right,
    {
        Hand::Right
    }
}

impl Hand {
    /// The default hand, which a writer leaves out.
    pub fn is_right(&self) -> (b: bool)
        ensures
            b == (*self == Hand::Right),
    {
        match self {
            Hand::Right => true,
            Hand::Left => false,
        }
    }
}

/// A flag a writer leaves out when it is off.
pub fn is_false(value: &bool) -> (b: bool)
    ensures
        b == !*value,
{
    !*value
}

/// The units a graph is in when it names none.
pub fn default_units() -> (u: String)
    ensures
        u@ == seq!['m', 'm'],
{
    let mut u = String::new();
    crate::text::push_char(&mut u, 'm');
    crate::text::push_char(&mut u, 'm');
    u
}


/// One body of a part that returns several: the name a script gave it, and
/// the node that is that body's finished solid.
pub struct NamedBody {
    pub name: String,
    pub child: NodeId,
}

/// How a node depends on the others: all a graph walk reads of an operation.
pub enum Links {
    /// A primitive, built from its own parameters alone.
    Leaf,
    /// The several bodies a part returns.
    Bodies(Vec<NamedBody>),
    /// A union or intersection of its operands.
    Operands(Vec<NodeId>),
    /// A base with tools cut out of it.
    Difference { base: NodeId, tools: Vec<NodeId> },
    /// A transform or edge treatment of one child.
    Child(NodeId),
}

/// A node of the graph, as far as its structure goes.
pub struct Node {
    pub links: Links,
    /// The stable name selectors address this node by.
    pub tag: Option<String>,
    /// How the node's body looks, if the node sets it.
    pub material: Option<Material>,
    /// The edge treatment the node is, if it is one.
    pub treatment: Option<Treatment>,
}

/// An edge treatment, as a report names it.
#[derive(Debug, Clone, Copy, PartialEq, Eq, Structural)]
pub enum Treatment {
    /// A fillet, asking for this continuity across its edges.
    Fillet(FilletContinuity),
    Chamfer,
}

/// A document: an arena of nodes plus the one that is the finished part.
pub struct Doc {
    pub nodes: Vec<Node>,
    pub root: NodeId,
    /// Units the document is authored in.
    pub units: String,
}

/// Why a graph cannot be walked.
#[derive(Debug, PartialEq, Eq)]
pub enum GraphError {
    /// A node was asked for by index and the document has no such node.
    NoSuchNode { id: NodeId, count: usize },
    /// A node the root depends on does not exist.
    Missing(NodeId),
    /// The root depends on a node that depends on itself.
    Cycle(NodeId),
    /// A node groups several bodies and is not the root.
    BodiesNotRoot(NodeId),
    /// The part returns an empty group of bodies.
    NoBodies,
    /// A body is named by white space alone.
    EmptyBodyName,
    /// Two bodies share this name.
    DuplicateBodyName(String),
    /// A material the root depends on does not read; the sentence says why.
    BadMaterial(String),
}

impl Links {
    /// The nodes these links depend on, in order.
    pub open spec fn kids(self) -> Seq<NodeId> {
        match self {
            Links::Leaf => seq![],
            Links::Bodies(bodies) => bodies@.map_values(|b: NamedBody| b.child),
            Links::Operands(children) => children@,
            Links::Difference { base, tools } => seq![base] + tools@,
            Links::Child(child) => seq![child],
        }
    }

    /// The operands whose look a body takes: a cut's tools leave no solid of
    /// their own, so only its base.
    pub open spec fn worn(self) -> Seq<NodeId> {
        match self {
            Links::Difference { base, tools } => seq![base],
            _ => self.kids(),
        }
    }
}

impl Doc {
    /// Node `a` depends directly on node `b`.
    pub open spec fn edge(self, a: NodeId, b: NodeId) -> bool {
        &&& a < self.nodes.len()
        &&& self.nodes@[a as int].links.kids().contains(b)
    }

    /// A walk of one or more dependencies.
    pub open spec fn is_path(self, p: Seq<NodeId>) -> bool {
        &&& p.len() >= 2
        &&& forall|k: int| 0 <= k < p.len() - 1 ==> #[trigger] self.edge(p[k], p[k + 1])
    }

    /// `a` depends on `b` through one or more links.
    pub open spec fn linked(self, a: NodeId, b: NodeId) -> bool {
        exists|p: Seq<NodeId>| #[trigger] self.is_path(p) && p[0] == a && p.last() == b
    }

    /// The root depends on `x`, or is `x`.
    pub open spec fn reaches(self, x: NodeId) -> bool {
        x == self.root || self.linked(self.root, x)
    }

    /// Everything the root depends on exists, and nothing it depends on
    /// depends on itself.
    pub open spec fn closed_acyclic(self) -> bool {
        forall|x: NodeId| #[trigger] self.reaches(x) ==> x < self.nodes.len() && !self.linked(x, x)
    }

    /// A group of bodies is the root, is not empty, and names each body
    /// distinctly and with something other than white space.
    pub open spec fn bodies_ok_at(self, id: NodeId) -> bool {
        match self.nodes@[id as int].links {
            Links::Bodies(bodies) => {
                &&& id == self.root
                &&& bodies.len() > 0
                &&& forall|i: int| 0 <= i < bodies.len() ==> !blank(#[trigger] bodies@[i].name@)
                &&& forall|i: int, j: int|
                    0 <= i < j < bodies.len() ==> #[trigger] bodies@[i].name@ != #[trigger] bodies@[j].name@
            },
            _ => true,
        }
    }

    /// Every group of bodies the root depends on is well formed.
    pub open spec fn bodies_valid(self) -> bool {
        forall|x: NodeId| #[trigger] self.reaches(x) && x < self.nodes.len() ==> self.bodies_ok_at(x)
    }

    /// `order` lists what the root depends on, each node once and after
    /// everything it depends on.
    pub open spec fn dependency_order(self, order: Seq<NodeId>) -> bool {
        &&& forall|i: int, j: int| 0 <= i < j < order.len() ==> order[i] != order[j]
        &&& forall|i: int| 0 <= i < order.len() ==> #[trigger] order[i] < self.nodes.len()
        &&& forall|i: int| 0 <= i < order.len() ==> self.reaches(#[trigger] order[i])
        &&& forall|x: NodeId| #[trigger] self.reaches(x) ==> order.contains(x)
        &&& forall|i: int, c: NodeId|
            0 <= i < order.len() && #[trigger] self.edge(order[i], c) ==> exists|j: int|
                0 <= j < i && #[trigger] order[j] == c
    }

    /// The node at `id`, or why there is none.
    pub fn node(&self, id: NodeId) -> (r: Result<&Node, GraphError>)
        ensures
            id < self.nodes.len() ==> r == Ok::<&Node, GraphError>(&self.nodes@[id as int]),
            id >= self.nodes.len() ==> r == Err::<&Node, GraphError>(
                GraphError::NoSuchNode { id, count: self.nodes.len() },
            ),
    {
        if id < self.nodes.len() {
            Ok(&self.nodes[id])
        } else {
            Err(GraphError::NoSuchNode { id, count: self.nodes.len() })
        }
    }

    /// Direct dependencies of a node, in the order its operation names them.
    pub fn children_of(&self, id: NodeId) -> (r: Result<Vec<NodeId>, GraphError>)
        ensures
            id < self.nodes.len() ==> (r matches Ok(v) && v@ == self.nodes@[id as int].links.kids()),
            id >= self.nodes.len() ==> r == Err::<Vec<NodeId>, GraphError>(
                GraphError::NoSuchNode { id, count: self.nodes.len() },
            ),
    {
        let node = match self.node(id) {
            Ok(node) => node,
            Err(e) => return Err(e),
        };
        let mut v: Vec<NodeId> = Vec::new();
        match &node.links {
            Links::Leaf => {},
            Links::Bodies(bodies) => {
                let mut i: usize = 0;
                while i < bodies.len()
                    invariant
                        i <= bodies.len(),
                        v@ == bodies@.take(i as int).map_values(|b: NamedBody| b.child),
                    decreases bodies.len() - i,
                {
                    v.push(bodies[i].child);
                    i = i + 1;
                    assert(bodies@.take(i as int).map_values(|b: NamedBody| b.child)
                        == bodies@.take(i - 1).map_values(|b: NamedBody| b.child).push(bodies@[i - 1].child));
                }
                assert(bodies@.take(bodies.len() as int) == bodies@);
            },
            Links::Operands(children) => {
                v = children.clone();
            },
            Links::Difference { base, tools } => {
                v.push(*base);
                let mut i: usize = 0;
                while i < tools.len()
                    invariant
                        i <= tools.len(),
                        v@ == seq![*base] + tools@.take(i as int),
                    decreases tools.len() - i,
                {
                    v.push(tools[i]);
                    i = i + 1;
                    assert(tools@.take(i as int) == tools@.take(i - 1).push(tools@[i - 1]));
                }
                assert(tools@.take(tools.len() as int) == tools@);
            },
            Links::Child(child) => {
                v.push(*child);
            },
        }
        Ok(v)
    }
}


/// Where a walk has got to with a node.
#[derive(Clone, Copy, PartialEq, Eq, Structural)]
enum Mark {
    Unvisited,
    InProgress,
    Done,
}

/// How many nodes a walk has still to enter.
spec fn count_unvisited(m: Seq<Mark>) -> nat
    decreases m.len(),
{
    if m.len() == 0 {
        0
    } else {
        count_unvisited(m.drop_last()) + if m.last() == Mark::Unvisited { 1nat } else { 0nat }
    }
}

proof fn lemma_count_update(m: Seq<Mark>, i: int, v: Mark)
    requires
        0 <= i < m.len(),
    ensures
        count_unvisited(m.update(i, v)) + (if m[i] == Mark::Unvisited { 1nat } else { 0nat })
            == count_unvisited(m) + (if v == Mark::Unvisited { 1nat } else { 0nat }),
    decreases m.len(),
{
    if i == m.len() - 1 {
        assert(m.update(i, v).drop_last() == m.drop_last());
    } else {
        assert(m.update(i, v).drop_last() == m.drop_last().update(i, v));
        lemma_count_update(m.drop_last(), i, v);
    }
}

/// Stack entries for a node's children, each still to be entered.
spec fn entries(kids: Seq<NodeId>) -> Seq<(NodeId, bool)> {
    kids.map_values(|c: NodeId| (c, false))
}

/// Some entry above position `i` is for node `c`.
spec fn later(st: Seq<(NodeId, bool)>, i: int, c: NodeId) -> bool {
    exists|j: int| i < j < st.len() && #[trigger] st[j].0 == c
}

/// A name a body may not carry: white space, or an earlier body's.
pub open spec fn body_bad(bodies: Seq<NamedBody>, i: int) -> bool {
    ||| blank(bodies[i].name@)
    ||| exists|j: int| 0 <= j < i && #[trigger] bodies[j].name@ == bodies[i].name@
}

impl Doc {
    proof fn lemma_edge_linked(self, a: NodeId, c: NodeId)
        requires
            self.edge(a, c),
        ensures
            self.linked(a, c),
    {
        let p = seq![a, c];
        assert(self.edge(p[0], p[1]));
        assert(self.is_path(p));
    }

    proof fn lemma_linked_edge(self, a: NodeId, b: NodeId, c: NodeId)
        requires
            self.linked(a, b),
            self.edge(b, c),
        ensures
            self.linked(a, c),
    {
        let p = choose|p: Seq<NodeId>| #[trigger] self.is_path(p) && p[0] == a && p.last() == b;
        let q = p.push(c);
        assert forall|k: int| 0 <= k < q.len() - 1 implies #[trigger] self.edge(q[k], q[k + 1]) by {
            if k < p.len() - 1 {
                assert(q[k] == p[k] && q[k + 1] == p[k + 1]);
                assert(self.edge(p[k], p[k + 1]));
            } else {
                assert(q[k] == b && q[k + 1] == c);
            }
        }
        assert(self.is_path(q));
        assert(q[0] == a && q.last() == c);
    }

    proof fn lemma_reaches_edge(self, a: NodeId, c: NodeId)
        requires
            self.reaches(a),
            self.edge(a, c),
        ensures
            self.reaches(c),
    {
        if a == self.root {
            self.lemma_edge_linked(a, c);
        } else {
            self.lemma_linked_edge(self.root, a, c);
        }
    }

    /// Everything a closed list reaches from one of its members is in it.
    proof fn lemma_closed_contains(self, od: Seq<NodeId>, p: Seq<NodeId>)
        requires
            self.is_path(p),
            od.contains(p[0]),
            forall|i: int, c: NodeId|
                0 <= i < od.len() && #[trigger] self.edge(od[i], c) ==> exists|j: int|
                    0 <= j < i && #[trigger] od[j] == c,
        ensures
            od.contains(p.last()),
        decreases p.len(),
    {
        let n = p.len();
        if n > 2 {
            let q = p.drop_last();
            assert forall|k: int| 0 <= k < q.len() - 1 implies #[trigger] self.edge(q[k], q[k + 1]) by {
                assert(self.edge(p[k], p[k + 1]));
            }
            self.lemma_closed_contains(od, q);
        }
        let prev = p[n - 2];
        let k0: int = n - 2;
        assert(self.edge(p[k0], p[k0 + 1]));
        assert(od.contains(prev));
        let i = choose|i: int| 0 <= i < od.len() && od[i] == prev;
        assert(self.edge(od[i], p.last()));
        let j = choose|j: int| 0 <= j < i && #[trigger] od[j] == p.last();
        assert(od[j] == p.last());
    }

    /// Following a dependency always steps to an earlier place in a
    /// dependency order.
    proof fn lemma_path_descends(self, od: Seq<NodeId>, p: Seq<NodeId>, i: int)
        requires
            self.is_path(p),
            0 <= i < od.len(),
            od[i] == p[0],
            forall|i: int, c: NodeId|
                0 <= i < od.len() && #[trigger] self.edge(od[i], c) ==> exists|j: int|
                    0 <= j < i && #[trigger] od[j] == c,
        ensures
            exists|j: int| 0 <= j < i && od[j] == p.last(),
        decreases p.len(),
    {
        let n = p.len();
        if n == 2 {
            let k0: int = 0;
            assert(self.edge(p[k0], p[k0 + 1]));
            assert(self.edge(od[i], p[1]));
        } else {
            let q = p.drop_last();
            assert forall|k: int| 0 <= k < q.len() - 1 implies #[trigger] self.edge(q[k], q[k + 1]) by {
                assert(self.edge(p[k], p[k + 1]));
            }
            self.lemma_path_descends(od, q, i);
            let j1 = choose|j: int| 0 <= j < i && od[j] == q.last();
            let k0: int = n - 2;
            assert(self.edge(p[k0], p[k0 + 1]));
            assert(self.edge(od[j1], p.last()));
            let j2 = choose|j: int| 0 <= j < j1 && #[trigger] od[j] == p.last();
            assert(od[j2] == p.last());
        }
    }

    /// A graph whose dependencies can be listed in dependency order has no
    /// missing node and no cycle anywhere the root reaches.
    pub proof fn lemma_ordered_is_acyclic(self, od: Seq<NodeId>)
        requires
            self.dependency_order(od),
        ensures
            self.closed_acyclic(),
    {
        assert forall|x: NodeId| #[trigger] self.reaches(x) implies x < self.nodes.len() && !self.linked(x, x) by {
            assert(od.contains(x));
            let i = choose|i: int| 0 <= i < od.len() && od[i] == x;
            assert(od[i] < self.nodes.len());
            if self.linked(x, x) {
                let p = choose|p: Seq<NodeId>| #[trigger] self.is_path(p) && p[0] == x && p.last() == x;
                self.lemma_path_descends(od, p, i);
                let j = choose|j: int| 0 <= j < i && od[j] == p.last();
                assert(od[j] == od[i]);
            }
        }
    }

    /// In a dependency order the root comes last: everything else the list
    /// holds is something the root depends on, so it comes before the root.
    pub proof fn lemma_the_root_comes_last(self, od: Seq<NodeId>)
        requires
            self.dependency_order(od),
        ensures
            od.len() > 0,
            od.last() == self.root,
    {
        assert(self.reaches(self.root));
        assert(od.contains(self.root));
        let i = choose|i: int| 0 <= i < od.len() && od[i] == self.root;
        let n = od.len() - 1;
        let x = od[n];
        assert(self.reaches(od[n]));
        if x != self.root {
            let p = choose|p: Seq<NodeId>| #[trigger] self.is_path(p) && p[0] == self.root && p.last() == x;
            self.lemma_path_descends(od, p, i);
            let j = choose|j: int| 0 <= j < i && od[j] == p.last();
            assert(od[j] == od[n]);
        }
    }

    /// The state of a dependency walk: marks, the finished order, and the
    /// stack of nodes still to enter (`false`) or to finish (`true`).
    spec fn walk_inv(self, mk: Seq<Mark>, od: Seq<NodeId>, st: Seq<(NodeId, bool)>) -> bool {
        let n = self.nodes.len();
        &&& mk.len() == n
        &&& forall|k: int|
            0 <= k < od.len() ==> #[trigger] od[k] < n && mk[od[k] as int] == Mark::Done && self.reaches(od[k])
        &&& forall|x: NodeId| x < n && #[trigger] mk[x as int] == Mark::Done ==> od.contains(x)
        &&& forall|i: int, j: int| 0 <= i < j < od.len() ==> od[i] != od[j]
        &&& forall|i: int, c: NodeId|
            0 <= i < od.len() && #[trigger] self.edge(od[i], c) ==> exists|j: int|
                0 <= j < i && #[trigger] od[j] == c
        &&& forall|j: int| 0 <= j < st.len() ==> self.reaches(#[trigger] st[j].0)
        &&& forall|j: int|
            0 <= j < st.len() && (#[trigger] st[j]).1 ==> st[j].0 < n && mk[st[j].0 as int] == Mark::InProgress
        &&& forall|x: NodeId| x < n && #[trigger] mk[x as int] == Mark::InProgress ==> st.contains((x, true))
        &&& forall|i: int, j: int|
            0 <= i < j < st.len() && (#[trigger] st[i]).1 && (#[trigger] st[j]).1 ==> st[i].0 != st[j].0
        &&& forall|i: int, j: int|
            0 <= i < j < st.len() && (#[trigger] st[i]).1 ==> self.linked(st[i].0, (#[trigger] st[j]).0)
        &&& forall|i: int, c: NodeId|
            0 <= i < st.len() && (#[trigger] st[i]).1 && #[trigger] self.edge(st[i].0, c) ==> (c < n
                && mk[c as int] == Mark::Done) || later(st, i, c)
        &&& (self.root < n && mk[self.root as int] == Mark::Done) || exists|j: int|
            0 <= j < st.len() && #[trigger] st[j].0 == self.root
    }

    /// Finishing the node on top of the stack keeps the walk's invariant.
    proof fn lemma_finish(self, mk: Seq<Mark>, od: Seq<NodeId>, st: Seq<(NodeId, bool)>, id: NodeId)
        requires
            self.walk_inv(mk, od, st),
            st.len() > 0,
            st.last() == (id, true),
        ensures
            self.walk_inv(mk.update(id as int, Mark::Done), od.push(id), st.drop_last()),
    {
        let n = self.nodes.len();
        let p = st.len() - 1;
        assert(st[p].1);
        let mk2 = mk.update(id as int, Mark::Done);
        let od2 = od.push(id);
        let st2 = st.drop_last();
        assert(id < n && mk[id as int] == Mark::InProgress);
        assert(!od.contains(id));
        assert forall|k: int| 0 <= k < od2.len() implies #[trigger] od2[k] < n && mk2[od2[k] as int]
            == Mark::Done && self.reaches(od2[k]) by {
            if k < od.len() {
                assert(od2[k] == od[k]);
                assert(od[k] != id);
            } else {
                assert(self.reaches(st[p].0));
            }
        }
        assert forall|x: NodeId| x < n && #[trigger] mk2[x as int] == Mark::Done implies od2.contains(x) by {
            if x == id {
                assert(od2[od.len() as int] == id);
            } else {
                assert(mk[x as int] == Mark::Done);
                assert(od.contains(x));
                let k = choose|k: int| 0 <= k < od.len() && od[k] == x;
                assert(od2[k] == x);
            }
        }
        assert forall|i: int, j: int| 0 <= i < j < od2.len() implies od2[i] != od2[j] by {
            if j == od.len() {
                assert(od2[i] == od[i]);
                assert(od[i] != id);
            }
        }
        assert forall|i: int, c: NodeId|
            0 <= i < od2.len() && #[trigger] self.edge(od2[i], c) implies exists|j: int|
                0 <= j < i && #[trigger] od2[j] == c by {
            if i < od.len() {
                assert(od2[i] == od[i]);
                let j = choose|j: int| 0 <= j < i && #[trigger] od[j] == c;
                assert(od2[j] == c);
            } else {
                assert(self.edge(st[p].0, c));
                if later(st, p, c) {
                    let j = choose|j: int| p < j < st.len() && #[trigger] st[j].0 == c;
                    assert(false);
                }
                assert(c < n && mk[c as int] == Mark::Done);
                assert(od.contains(c));
                let j = choose|j: int| 0 <= j < od.len() && od[j] == c;
                assert(od2[j] == c);
            }
        }
        assert forall|j: int| 0 <= j < st2.len() implies self.reaches(#[trigger] st2[j].0) by {
            assert(st2[j] == st[j]);
        }
        assert forall|j: int|
            0 <= j < st2.len() && (#[trigger] st2[j]).1 implies st2[j].0 < n && mk2[st2[j].0 as int]
                == Mark::InProgress by {
            assert(st2[j] == st[j]);
            assert(st[j].0 != id);
        }
        assert forall|x: NodeId| x < n && #[trigger] mk2[x as int] == Mark::InProgress implies st2.contains(
            (x, true),
        ) by {
            assert(x != id);
            assert(mk[x as int] == Mark::InProgress);
            assert(st.contains((x, true)));
            let j = choose|j: int| 0 <= j < st.len() && st[j] == (x, true);
            assert(j != p);
            assert(st2[j] == (x, true));
        }
        assert forall|i: int, j: int|
            0 <= i < j < st2.len() && (#[trigger] st2[i]).1 && (#[trigger] st2[j]).1 implies st2[i].0
                != st2[j].0 by {
            assert(st2[i] == st[i] && st2[j] == st[j]);
        }
        assert forall|i: int, j: int|
            0 <= i < j < st2.len() && (#[trigger] st2[i]).1 implies self.linked(
                st2[i].0,
                (#[trigger] st2[j]).0,
            ) by {
            assert(st2[i] == st[i] && st2[j] == st[j]);
        }
        assert forall|i: int, c: NodeId|
            0 <= i < st2.len() && (#[trigger] st2[i]).1 && #[trigger] self.edge(st2[i].0, c) implies (c < n
                && mk2[c as int] == Mark::Done) || later(st2, i, c) by {
            assert(st2[i] == st[i]);
            if !(c < n && mk[c as int] == Mark::Done) {
                let j = choose|j: int| i < j < st.len() && #[trigger] st[j].0 == c;
                if j == p {
                    assert(c == id);
                } else {
                    assert(st2[j] == st[j]);
                }
            }
        }
        if !(self.root < n && mk[self.root as int] == Mark::Done) {
            let j = choose|j: int| 0 <= j < st.len() && #[trigger] st[j].0 == self.root;
            if j != p {
                assert(st2[j] == st[j]);
            }
        }
    }

    /// Popping an entry for a node already finished keeps the invariant.
    proof fn lemma_skip(self, mk: Seq<Mark>, od: Seq<NodeId>, st: Seq<(NodeId, bool)>, id: NodeId)
        requires
            self.walk_inv(mk, od, st),
            st.len() > 0,
            st.last() == (id, false),
            id < self.nodes.len(),
            mk[id as int] == Mark::Done,
        ensures
            self.walk_inv(mk, od, st.drop_last()),
    {
        let n = self.nodes.len();
        let p = st.len() - 1;
        let st2 = st.drop_last();
        assert forall|j: int| 0 <= j < st2.len() implies self.reaches(#[trigger] st2[j].0) by {
            assert(st2[j] == st[j]);
        }
        assert forall|j: int|
            0 <= j < st2.len() && (#[trigger] st2[j]).1 implies st2[j].0 < n && mk[st2[j].0 as int]
                == Mark::InProgress by {
            assert(st2[j] == st[j]);
        }
        assert forall|x: NodeId| x < n && #[trigger] mk[x as int] == Mark::InProgress implies st2.contains(
            (x, true),
        ) by {
            let j = choose|j: int| 0 <= j < st.len() && st[j] == (x, true);
            assert(j != p);
            assert(st2[j] == (x, true));
        }
        assert forall|i: int, j: int|
            0 <= i < j < st2.len() && (#[trigger] st2[i]).1 && (#[trigger] st2[j]).1 implies st2[i].0
                != st2[j].0 by {
            assert(st2[i] == st[i] && st2[j] == st[j]);
        }
        assert forall|i: int, j: int|
            0 <= i < j < st2.len() && (#[trigger] st2[i]).1 implies self.linked(
                st2[i].0,
                (#[trigger] st2[j]).0,
            ) by {
            assert(st2[i] == st[i] && st2[j] == st[j]);
        }
        assert forall|i: int, c: NodeId|
            0 <= i < st2.len() && (#[trigger] st2[i]).1 && #[trigger] self.edge(st2[i].0, c) implies (c < n
                && mk[c as int] == Mark::Done) || later(st2, i, c) by {
            assert(st2[i] == st[i]);
            if !(c < n && mk[c as int] == Mark::Done) {
                let j = choose|j: int| i < j < st.len() && #[trigger] st[j].0 == c;
                assert(j != p);
                assert(st2[j] == st[j]);
            }
        }
        if !(self.root < n && mk[self.root as int] == Mark::Done) {
            let j = choose|j: int| 0 <= j < st.len() && #[trigger] st[j].0 == self.root;
            assert(j != p);
            assert(st2[j] == st[j]);
        }
    }

    /// Entering a node for the first time keeps the invariant.
    proof fn lemma_enter(
        self,
        mk: Seq<Mark>,
        od: Seq<NodeId>,
        st: Seq<(NodeId, bool)>,
        id: NodeId,
        kids: Seq<NodeId>,
    )
        requires
            self.walk_inv(mk, od, st),
            st.len() > 0,
            st.last() == (id, false),
            id < self.nodes.len(),
            mk[id as int] == Mark::Unvisited,
            kids == self.nodes@[id as int].links.kids(),
        ensures
            self.walk_inv(
                mk.update(id as int, Mark::InProgress),
                od,
                st.drop_last().push((id, true)) + entries(kids),
            ),
    {
        let n = self.nodes.len();
        let p = st.len() - 1;
        let mk2 = mk.update(id as int, Mark::InProgress);
        let st2 = st.drop_last().push((id, true)) + entries(kids);
        assert(st2.len() == st.len() + kids.len());
        assert(st2[p] == (id, true));
        assert forall|j: int| 0 <= j < p implies #[trigger] st2[j] == st[j] by {}
        assert forall|k: int| 0 <= k < kids.len() implies #[trigger] st2[p + 1 + k] == (kids[k], false) by {}
        assert(self.reaches(st[p].0));
        assert forall|k: int| 0 <= k < od.len() implies #[trigger] od[k] < n && mk2[od[k] as int] == Mark::Done
            && self.reaches(od[k]) by {
            assert(mk[od[k] as int] == Mark::Done);
        }
        assert forall|x: NodeId| x < n && #[trigger] mk2[x as int] == Mark::Done implies od.contains(x) by {
            assert(mk[x as int] == Mark::Done);
        }
        assert forall|j: int| 0 <= j < st2.len() implies self.reaches(#[trigger] st2[j].0) by {
            if j < p {
                assert(st2[j] == st[j]);
            } else if j > p {
                let k = j - p - 1;
                assert(st2[p + 1 + k] == (kids[k], false));
                assert(kids.contains(kids[k]));
                assert(self.edge(id, kids[k]));
                self.lemma_reaches_edge(id, kids[k]);
            }
        }
        assert forall|j: int|
            0 <= j < st2.len() && (#[trigger] st2[j]).1 implies st2[j].0 < n && mk2[st2[j].0 as int]
                == Mark::InProgress by {
            if j < p {
                assert(st2[j] == st[j]);
                assert(st[j].0 != id);
            } else if j > p {
                assert(st2[p + 1 + (j - p - 1)] == (kids[j - p - 1], false));
            }
        }
        assert forall|x: NodeId| x < n && #[trigger] mk2[x as int] == Mark::InProgress implies st2.contains(
            (x, true),
        ) by {
            if x == id {
                assert(st2[p] == (id, true));
            } else {
                assert(mk[x as int] == Mark::InProgress);
                let j = choose|j: int| 0 <= j < st.len() && st[j] == (x, true);
                assert(j != p);
                assert(st2[j] == (x, true));
            }
        }
        assert forall|i: int, j: int|
            0 <= i < j < st2.len() && (#[trigger] st2[i]).1 && (#[trigger] st2[j]).1 implies st2[i].0
                != st2[j].0 by {
            if j > p {
                assert(st2[p + 1 + (j - p - 1)] == (kids[j - p - 1], false));
            } else if j == p {
                assert(st2[i] == st[i]);
                assert(mk[st[i].0 as int] == Mark::InProgress);
            } else {
                assert(st2[i] == st[i] && st2[j] == st[j]);
            }
        }
        assert forall|i: int, j: int|
            0 <= i < j < st2.len() && (#[trigger] st2[i]).1 implies self.linked(
                st2[i].0,
                (#[trigger] st2[j]).0,
            ) by {
            if i > p {
                assert(st2[p + 1 + (i - p - 1)] == (kids[i - p - 1], false));
            } else if j <= p {
                assert(st2[i] == st[i]);
                if j < p {
                    assert(st2[j] == st[j]);
                } else {
                    assert(self.linked(st[i].0, st[p].0));
                }
            } else {
                let k = j - p - 1;
                assert(st2[p + 1 + k] == (kids[k], false));
                assert(kids.contains(kids[k]));
                assert(self.edge(id, kids[k]));
                if i == p {
                    self.lemma_edge_linked(id, kids[k]);
                } else {
                    assert(st2[i] == st[i]);
                    assert(self.linked(st[i].0, st[p].0));
                    self.lemma_linked_edge(st[i].0, id, kids[k]);
                }
            }
        }
        assert forall|i: int, c: NodeId|
            0 <= i < st2.len() && (#[trigger] st2[i]).1 && #[trigger] self.edge(st2[i].0, c) implies (c < n
                && mk2[c as int] == Mark::Done) || later(st2, i, c) by {
            if i > p {
                assert(st2[p + 1 + (i - p - 1)] == (kids[i - p - 1], false));
            } else if i == p {
                assert(kids.contains(c));
                let k = choose|k: int| 0 <= k < kids.len() && kids[k] == c;
                assert(st2[p + 1 + k] == (kids[k], false));
                assert(st2[p + 1 + k].0 == c);
            } else {
                assert(st2[i] == st[i]);
                if !(c < n && mk[c as int] == Mark::Done) {
                    let j = choose|j: int| i < j < st.len() && #[trigger] st[j].0 == c;
                    if j < p {
                        assert(st2[j] == st[j]);
                    } else {
                        assert(st2[p].0 == c);
                    }
                } else {
                    assert(c != id);
                }
            }
        }
        if !(self.root < n && mk[self.root as int] == Mark::Done) {
            let j = choose|j: int| 0 <= j < st.len() && #[trigger] st[j].0 == self.root;
            if j < p {
                assert(st2[j] == st[j]);
            } else {
                assert(st2[p].0 == self.root);
            }
        } else {
            assert(self.root != id);
        }
    }
}


impl Doc {
    /// What checking a group of bodies reports first, when it fails.
    pub open spec fn body_error(self, id: NodeId, e: GraphError) -> bool {
        match self.nodes@[id as int].links {
            Links::Bodies(bodies) => {
                if id != self.root {
                    e == GraphError::BodiesNotRoot(id)
                } else if bodies.len() == 0 {
                    e == GraphError::NoBodies
                } else {
                    exists|i: int|
                        0 <= i < bodies.len() && body_bad(bodies@, i) && (forall|j: int|
                            0 <= j < i ==> !#[trigger] body_bad(bodies@, j)) && if blank(bodies@[i].name@) {
                            e == GraphError::EmptyBodyName
                        } else {
                            e matches GraphError::DuplicateBodyName(name) && name@ == bodies@[i].name@
                        }
                }
            },
            _ => false,
        }
    }

    proof fn lemma_bodies_ok_iff(self, id: NodeId)
        requires
            id < self.nodes.len(),
        ensures
            self.bodies_ok_at(id) <==> match self.nodes@[id as int].links {
                Links::Bodies(bodies) => id == self.root && bodies.len() > 0 && forall|i: int|
                    0 <= i < bodies.len() ==> !#[trigger] body_bad(bodies@, i),
                _ => true,
            },
    {
        match self.nodes@[id as int].links {
            Links::Bodies(bodies) => {
                let b = bodies@;
                if forall|i: int| 0 <= i < b.len() ==> !#[trigger] body_bad(b, i) {
                    assert forall|i: int, j: int| 0 <= i < j < b.len() implies #[trigger] b[i].name@
                        != #[trigger] b[j].name@ by {
                        assert(!body_bad(b, j));
                    }
                    assert forall|i: int| 0 <= i < b.len() implies !blank(#[trigger] b[i].name@) by {
                        assert(!body_bad(b, i));
                    }
                }
                if (forall|i: int| 0 <= i < b.len() ==> !blank(#[trigger] b[i].name@)) && (forall|i: int, j: int|
                    0 <= i < j < b.len() ==> #[trigger] b[i].name@ != #[trigger] b[j].name@) {
                    assert forall|i: int| 0 <= i < b.len() implies !#[trigger] body_bad(b, i) by {
                        assert(!blank(b[i].name@));
                        if exists|j: int| 0 <= j < i && #[trigger] b[j].name@ == b[i].name@ {
                            let j = choose|j: int| 0 <= j < i && #[trigger] b[j].name@ == b[i].name@;
                            assert(b[j].name@ != b[i].name@);
                        }
                    }
                }
            },
            _ => {},
        }
    }

    /// Check one node's group of bodies, if it is one.
    fn validate_body_node(&self, id: NodeId) -> (r: Result<(), GraphError>)
        requires
            id < self.nodes.len(),
        ensures
            r is Ok <==> self.bodies_ok_at(id),
            r matches Err(e) ==> self.body_error(id, e),
    {
        proof {
            self.lemma_bodies_ok_iff(id);
        }
        let bodies = match &self.nodes[id].links {
            Links::Bodies(bodies) => bodies,
            _ => return Ok(()),
        };
        if id != self.root {
            return Err(GraphError::BodiesNotRoot(id));
        }
        if bodies.len() == 0 {
            return Err(GraphError::NoBodies);
        }
        let mut i: usize = 0;
        while i < bodies.len()
            invariant
                i <= bodies.len(),
                id < self.nodes.len(),
                id == self.root,
                bodies.len() > 0,
                self.nodes@[id as int].links == Links::Bodies(*bodies),
                forall|k: int| 0 <= k < i ==> !#[trigger] body_bad(bodies@, k),
            decreases bodies.len() - i,
        {
            if is_blank(bodies[i].name.as_str()) {
                assert(body_bad(bodies@, i as int));
                assert(self.body_error(id, GraphError::EmptyBodyName));
                return Err(GraphError::EmptyBodyName);
            }
            let mut j: usize = 0;
            while j < i
                invariant
                    j <= i < bodies.len(),
                    id < self.nodes.len(),
                    id == self.root,
                    self.nodes@[id as int].links == Links::Bodies(*bodies),
                    forall|k: int| 0 <= k < i ==> !#[trigger] body_bad(bodies@, k),
                    !blank(bodies@[i as int].name@),
                    forall|k: int| 0 <= k < j ==> #[trigger] bodies@[k].name@ != bodies@[i as int].name@,
                decreases i - j,
            {
                if bodies[j].name == bodies[i].name {
                    assert(bodies@[j as int].name@ == bodies@[i as int].name@);
                    assert(body_bad(bodies@, i as int));
                    let e = GraphError::DuplicateBodyName(bodies[i].name.clone());
                    assert(self.body_error(id, e));
                    return Err(e);
                }
                j = j + 1;
            }
            assert(!body_bad(bodies@, i as int));
            i = i + 1;
        }
        Ok(())
    }

    /// A group of bodies is the root or nothing, and its names are what a
    /// reader looks a body up by, so they are present and distinct. Checks
    /// `live` in order and reports the first failure.
    pub fn validate_bodies(&self, live: &[NodeId]) -> (r: Result<(), GraphError>)
        requires
            forall|k: int| 0 <= k < live.len() ==> #[trigger] live@[k] < self.nodes.len(),
        ensures
            r is Ok <==> forall|k: int| 0 <= k < live.len() ==> self.bodies_ok_at(#[trigger] live@[k]),
            r matches Err(e) ==> exists|k: int|
                0 <= k < live.len() && !self.bodies_ok_at(live@[k]) && self.body_error(live@[k], e) && forall|
                    j: int,
                | 0 <= j < k ==> self.bodies_ok_at(#[trigger] live@[j]),
    {
        let mut k: usize = 0;
        while k < live.len()
            invariant
                k <= live.len(),
                forall|k: int| 0 <= k < live.len() ==> #[trigger] live@[k] < self.nodes.len(),
                forall|j: int| 0 <= j < k ==> self.bodies_ok_at(#[trigger] live@[j]),
            decreases live.len() - k,
        {
            match self.validate_body_node(live[k]) {
                Ok(()) => {},
                Err(e) => {
                    return Err(e);
                },
            }
            k = k + 1;
        }
        Ok(())
    }

    /// Every node the root depends on, in dependency order; also the check
    /// that the graph is closed, acyclic and groups its bodies properly.
    pub fn topo_order(&self) -> (r: Result<Vec<NodeId>, GraphError>)
        ensures
            r matches Ok(order) ==> self.dependency_order(order@),
            r matches Ok(order) ==> order@.len() > 0 && order@.last() == self.root,
            r is Ok <==> (self.closed_acyclic() && self.bodies_valid() && self.materials_valid()),
            r matches Err(GraphError::BadMaterial(why)) ==> (self.closed_acyclic() && self.bodies_valid() && exists|x: NodeId|
                self.reaches(x) && x < self.nodes.len() && #[trigger] self.refuses_material(x, why@)),
            r matches Err(GraphError::Missing(id)) ==> self.reaches(id) && id >= self.nodes.len(),
            r matches Err(GraphError::Cycle(id)) ==> self.reaches(id) && id < self.nodes.len()
                && self.linked(id, id),
            r matches Err(e) ==> (e is Missing || e is Cycle || e is BadMaterial || (self.closed_acyclic() && exists|x: NodeId|
                self.reaches(x) && x < self.nodes.len() && !self.bodies_ok_at(x) && self.body_error(x, e))),
    {
        let n = self.nodes.len();
        let mut marks: Vec<Mark> = Vec::new();
        let mut i: usize = 0;
        while i < n
            invariant
                i <= n,
                n == self.nodes.len(),
                marks.len() == i,
                forall|k: int| 0 <= k < i ==> #[trigger] marks@[k] == Mark::Unvisited,
            decreases n - i,
        {
            marks.push(Mark::Unvisited);
            i = i + 1;
        }
        let mut order: Vec<NodeId> = Vec::new();
        let mut stack: Vec<(NodeId, bool)> = Vec::new();
        stack.push((self.root, false));
        proof {
            assert(stack@[0].0 == self.root);
        }
        while stack.len() > 0
            invariant
                n == self.nodes.len(),
                self.walk_inv(marks@, order@, stack@),
            decreases count_unvisited(marks@), stack.len(),
        {
            let ghost st = stack@;
            let ghost mk = marks@;
            let ghost od = order@;
            let top = stack.pop();
            let (id, children_done) = match top {
                Some(entry) => entry,
                None => {
                    return Err(GraphError::Missing(self.root));
                },
            };
            assert(st.last() == (id, children_done));
            assert(stack@ == st.drop_last());
            if children_done {
                proof {
                    self.lemma_finish(mk, od, st, id);
                    lemma_count_update(mk, id as int, Mark::Done);
                }
                marks.set(id, Mark::Done);
                order.push(id);
                continue;
            }
            if id >= n {
                assert(self.reaches(st[st.len() - 1].0));
                return Err(GraphError::Missing(id));
            }
            match marks[id] {
                Mark::Done => {
                    proof {
                        self.lemma_skip(mk, od, st, id);
                    }
                    continue;
                },
                Mark::InProgress => {
                    proof {
                        let p = st.len() - 1;
                        assert(self.reaches(st[p].0));
                        assert(st.contains((id, true)));
                        let i = choose|i: int| 0 <= i < st.len() && st[i] == (id, true);
                        assert(i != p);
                        assert(self.linked(st[i].0, st[p].0));
                    }
                    return Err(GraphError::Cycle(id));
                },
                Mark::Unvisited => {},
            }
            let kids = match self.children_of(id) {
                Ok(kids) => kids,
                Err(e) => {
                    return Err(GraphError::Missing(id));
                },
            };
            proof {
                self.lemma_enter(mk, od, st, id, kids@);
                lemma_count_update(mk, id as int, Mark::InProgress);
            }
            marks.set(id, Mark::InProgress);
            stack.push((id, true));
            let ghost base = stack@;
            let mut k: usize = 0;
            while k < kids.len()
                invariant
                    k <= kids.len(),
                    stack@ == base + entries(kids@.take(k as int)),
                decreases kids.len() - k,
            {
                stack.push((kids[k], false));
                k = k + 1;
                assert(entries(kids@.take(k as int)) == entries(kids@.take(k - 1)).push((kids@[k - 1], false)));
            }
            assert(kids@.take(kids.len() as int) == kids@);
        }
        proof {
            let od = order@;
            let mk = marks@;
            assert(self.root < n && mk[self.root as int] == Mark::Done);
            assert(od.contains(self.root));
            assert forall|x: NodeId| #[trigger] self.reaches(x) implies od.contains(x) by {
                if x != self.root {
                    let p = choose|p: Seq<NodeId>| #[trigger] self.is_path(p) && p[0] == self.root && p.last() == x;
                    self.lemma_closed_contains(od, p);
                }
            }
            assert(self.dependency_order(od));
            self.lemma_ordered_is_acyclic(od);
            self.lemma_the_root_comes_last(od);
        }
        match self.validate_bodies(order.as_slice()) {
            Ok(()) => {
                proof {
                    let od = order@;
                    assert forall|x: NodeId| #[trigger] self.reaches(x) && x < self.nodes.len() implies self.bodies_ok_at(x) by {
                        let k = choose|k: int| 0 <= k < od.len() && od[k] == x;
                        assert(self.bodies_ok_at(od[k]));
                    }
                }
                proof {
                    assert(self.bodies_valid());
                    assert(self.closed_acyclic());
                }
                let checked = self.check_materials(&order);
                match checked {
                    Ok(()) => Ok(order),
                    Err(why) => {
                        let ghost x0 = choose|x: NodeId| self.reaches(x) && x < self.nodes.len() && #[trigger] self.refuses_material(x, why@);
                        let r = Err(GraphError::BadMaterial(why));
                        assert(r matches Err(GraphError::BadMaterial(w)) && self.reaches(x0) && x0 < self.nodes.len() && self.refuses_material(x0, w@));
                        r
                    },
                }
            },
            Err(e) => {
                proof {
                    let od = order@;
                    let k = choose|k: int|
                        0 <= k < od.len() && !self.bodies_ok_at(od[k]) && self.body_error(od[k], e) && forall|j: int|
                            0 <= j < k ==> self.bodies_ok_at(#[trigger] od[j]);
                    assert(self.reaches(od[k]) && od[k] < self.nodes.len());
                    assert(!(e is BadMaterial));
                }
                Err(e)
            },
        }
    }
}


/// How many nodes a search has not looked at yet.
pub closed spec fn count_unseen(seen: Seq<bool>) -> nat
    decreases seen.len(),
{
    if seen.len() == 0 {
        0
    } else {
        count_unseen(seen.drop_last()) + if seen.last() { 0nat } else { 1nat }
    }
}

proof fn lemma_unseen_mark(seen: Seq<bool>, i: int)
    requires
        0 <= i < seen.len(),
        !seen[i],
    ensures
        count_unseen(seen.update(i, true)) + 1 == count_unseen(seen),
    decreases seen.len(),
{
    if i == seen.len() - 1 {
        assert(seen.update(i, true).drop_last() == seen.drop_last());
    } else {
        assert(seen.update(i, true).drop_last() == seen.drop_last().update(i, true));
        lemma_unseen_mark(seen.drop_last(), i);
    }
}

/// `s` back to front.
pub open spec fn reversed(s: Seq<NodeId>) -> Seq<NodeId> {
    Seq::new(s.len(), |i: int| s[s.len() - 1 - i])
}

impl Doc {
    /// Depth first from the top of `stack`, each node once, operands in
    /// order and a cut's base alone: the first node that sets a material.
    pub closed spec fn wear_search(self, stack: Seq<NodeId>, seen: Seq<bool>) -> Option<NodeId>
        decreases count_unseen(seen), stack.len(),
    {
        if stack.len() == 0 {
            None
        } else {
            let id = stack.last();
            let rest = stack.drop_last();
            if id >= self.nodes.len() || id >= seen.len() || seen[id as int] {
                self.wear_search(rest, seen)
            } else if self.nodes@[id as int].material is Some {
                Some(id)
            } else {
                proof {
                    lemma_unseen_mark(seen, id as int);
                }
                self.wear_search(rest + reversed(self.nodes@[id as int].links.worn()), seen.update(id as int, true))
            }
        }
    }

    /// The node whose material a body rooted at `root` wears.
    pub open spec fn worn_by(self, root: NodeId) -> Option<NodeId> {
        self.wear_search(seq![root], Seq::new(self.nodes.len() as nat, |i: int| false))
    }

    /// The root of every body: the named bodies of a part that returns
    /// several, or the root itself.
    pub open spec fn body_roots(self) -> Seq<NodeId> {
        if self.root < self.nodes.len() && self.nodes@[self.root as int].links is Bodies {
            self.nodes@[self.root as int].links->Bodies_0@.map_values(|b: NamedBody| b.child)
        } else {
            seq![self.root]
        }
    }

    proof fn lemma_wear_found(self, stack: Seq<NodeId>, seen: Seq<bool>)
        ensures
            self.wear_search(stack, seen) matches Some(m) ==> m < self.nodes.len() && self.nodes@[m as int].material is Some,
        decreases count_unseen(seen), stack.len(),
    {
        if stack.len() > 0 {
            let id = stack.last();
            let rest = stack.drop_last();
            if id >= self.nodes.len() || id >= seen.len() || seen[id as int] {
                self.lemma_wear_found(rest, seen);
            } else if self.nodes@[id as int].material is None {
                lemma_unseen_mark(seen, id as int);
                self.lemma_wear_found(rest + reversed(self.nodes@[id as int].links.worn()), seen.update(id as int, true));
            }
        }
    }

    /// The node whose material the body rooted at `root` wears, if any.
    fn wears(&self, root: NodeId) -> (r: Option<NodeId>)
        ensures
            r == self.worn_by(root),
            r matches Some(m) ==> m < self.nodes.len() && self.nodes@[m as int].material is Some,
    {
        proof {
            self.lemma_wear_found(seq![root], Seq::new(self.nodes.len() as nat, |i: int| false));
        }
        let n = self.nodes.len();
        let mut seen: Vec<bool> = Vec::new();
        let mut i: usize = 0;
        while i < n
            invariant
                i <= n,
                n == self.nodes.len(),
                seen@ == Seq::new(i as nat, |i: int| false),
            decreases n - i,
        {
            seen.push(false);
            i = i + 1;
        }
        let mut stack: Vec<NodeId> = Vec::new();
        stack.push(root);
        assert(stack@ == seq![root]);
        while stack.len() > 0
            invariant
                n == self.nodes.len(),
                seen.len() == n,
                self.wear_search(stack@, seen@) == self.worn_by(root),
            decreases count_unseen(seen@), stack.len(),
        {
            let ghost st = stack@;
            let ghost sn = seen@;
            let id = stack.pop().unwrap();
            assert(st.last() == id && stack@ == st.drop_last());
            if id >= n || seen[id] {
                continue;
            }
            if self.nodes[id].material.is_some() {
                return Some(id);
            }
            proof {
                lemma_unseen_mark(sn, id as int);
            }
            seen.set(id, true);
            let operands = match &self.nodes[id].links {
                Links::Difference { base, tools } => {
                    let mut v: Vec<NodeId> = Vec::new();
                    v.push(*base);
                    v
                },
                _ => match self.children_of(id) {
                    Ok(v) => v,
                    Err(_) => Vec::new(),
                },
            };
            assert(operands@ == self.nodes@[id as int].links.worn());
            let ghost base = stack@;
            let mut k: usize = operands.len();
            while k > 0
                invariant
                    k <= operands.len(),
                    stack@ == base + reversed(operands@).take(operands.len() - k),
                decreases k,
            {
                k = k - 1;
                stack.push(operands[k]);
                assert(reversed(operands@).take(operands.len() - k) == reversed(operands@).take(
                    operands.len() - k - 1,
                ).push(operands@[k as int]));
            }
            assert(reversed(operands@).take(operands.len() as int) == reversed(operands@));
        }
        None
    }

    /// What each body wears, in body order, one entry for a one-solid part:
    /// the node whose material it takes. A body takes the first material met
    /// walking down from its root through each operand in turn, the shape
    /// returned first; the tools of a cut are never read.
    pub fn body_materials(&self) -> (v: Vec<Option<NodeId>>)
        ensures
            v@.len() == self.body_roots().len(),
            forall|i: int| 0 <= i < v@.len() ==> #[trigger] v@[i] == self.worn_by(self.body_roots()[i]),
            forall|i: int|
                0 <= i < v@.len() ==> (#[trigger] v@[i] matches Some(m) ==> m < self.nodes.len()
                    && self.nodes@[m as int].material is Some),
    {
        let roots: Vec<NodeId> = match self.bodies() {
            Some(bodies) => {
                let mut r: Vec<NodeId> = Vec::new();
                let mut i: usize = 0;
                while i < bodies.len()
                    invariant
                        i <= bodies.len(),
                        r@ == bodies@.take(i as int).map_values(|b: NamedBody| b.child),
                    decreases bodies.len() - i,
                {
                    r.push(bodies[i].child);
                    i = i + 1;
                    assert(bodies@.take(i as int).map_values(|b: NamedBody| b.child)
                        == bodies@.take(i - 1).map_values(|b: NamedBody| b.child).push(bodies@[i - 1].child));
                }
                assert(bodies@.take(bodies.len() as int) == bodies@);
                r
            },
            None => {
                let mut r: Vec<NodeId> = Vec::new();
                r.push(self.root);
                r
            },
        };
        assert(roots@ == self.body_roots());
        let mut out: Vec<Option<NodeId>> = Vec::new();
        let mut i: usize = 0;
        while i < roots.len()
            invariant
                i <= roots.len(),
                roots@ == self.body_roots(),
                out@.len() == i,
                forall|k: int| 0 <= k < i ==> #[trigger] out@[k] == self.worn_by(self.body_roots()[k]),
                forall|k: int|
                    0 <= k < i ==> (#[trigger] out@[k] matches Some(m) ==> m < self.nodes.len()
                        && self.nodes@[m as int].material is Some),
            decreases roots.len() - i,
        {
            out.push(self.wears(roots[i]));
            i = i + 1;
        }
        out
    }

    /// The named bodies of a part that returns several, or `None` for the
    /// ordinary one-solid document.
    pub fn bodies(&self) -> (r: Option<&Vec<NamedBody>>)
        ensures
            self.root < self.nodes.len() && self.nodes@[self.root as int].links is Bodies ==> r == Some(
                &self.nodes@[self.root as int].links->Bodies_0,
            ),
            !(self.root < self.nodes.len() && self.nodes@[self.root as int].links is Bodies) ==> r is None,
    {
        if self.root >= self.nodes.len() {
            return None;
        }
        match &self.nodes[self.root].links {
            Links::Bodies(bodies) => Some(bodies),
            _ => None,
        }
    }

    /// Tagged nodes, in graph order: the selectable regions.
    pub fn tags(&self) -> (v: Vec<(NodeId, &str)>)
        ensures
            forall|i: int|
                0 <= i < v@.len() ==> (#[trigger] v@[i].0 < self.nodes.len() && (self.nodes@[v@[i].0 as int].tag
                    matches Some(t) && t@ == v@[i].1@)),
            forall|i: int, j: int| 0 <= i < j < v@.len() ==> #[trigger] v@[i].0 < #[trigger] v@[j].0,
            forall|id: NodeId|
                id < self.nodes.len() && #[trigger] self.nodes@[id as int].tag is Some ==> exists|i: int|
                    0 <= i < v@.len() && v@[i].0 == id,
    {
        let mut v: Vec<(NodeId, &str)> = Vec::new();
        let mut id: usize = 0;
        while id < self.nodes.len()
            invariant
                id <= self.nodes.len(),
                forall|i: int|
                    0 <= i < v@.len() ==> (#[trigger] v@[i].0 < id && (self.nodes@[v@[i].0 as int].tag matches Some(t)
                        && t@ == v@[i].1@)),
                forall|i: int, j: int| 0 <= i < j < v@.len() ==> #[trigger] v@[i].0 < #[trigger] v@[j].0,
                forall|x: NodeId|
                    x < id && #[trigger] self.nodes@[x as int].tag is Some ==> exists|i: int|
                        0 <= i < v@.len() && v@[i].0 == x,
            decreases self.nodes.len() - id,
        {
            let ghost old_v = v@;
            match &self.nodes[id].tag {
                Some(t) => {
                    v.push((id, t.as_str()));
                    assert(v@[v@.len() - 1].0 == id);
                },
                None => {},
            }
            assert forall|x: NodeId|
                x < id + 1 && #[trigger] self.nodes@[x as int].tag is Some implies exists|i: int|
                    0 <= i < v@.len() && v@[i].0 == x by {
                if x == id {
                    assert(v@[v@.len() - 1].0 == id);
                } else {
                    let i = choose|i: int| 0 <= i < old_v.len() && old_v[i].0 == x;
                    assert(v@[i] == old_v[i]);
                }
            }
            id = id + 1;
        }
        v
    }
}


impl GraphError {
    /// What the error says to whoever wrote the graph.
    pub open spec fn text(self) -> Seq<char> {
        match self {
            GraphError::NoSuchNode { id, count } => "node "@ + decimal(id as nat) + " does not exist (document has "@
                + decimal(count as nat) + " nodes)"@,
            GraphError::Missing(id) => "node "@ + decimal(id as nat) + " does not exist"@,
            GraphError::Cycle(id) => "cycle in the graph, reached through node "@ + decimal(id as nat),
            GraphError::BodiesNotRoot(id) => "node "@ + decimal(id as nat) + BODIES_NOT_ROOT@,
            GraphError::NoBodies => NO_BODIES@,
            GraphError::EmptyBodyName => EMPTY_BODY_NAME@,
            GraphError::BadMaterial(why) => why@,
            GraphError::DuplicateBodyName(name) => "two bodies are both named "@ + quoted(name@)
                + "; give each body its own name"@,
        }
    }

    /// The error as a sentence.
    pub fn message(&self) -> (m: String)
        ensures
            m@ == self.text(),
    {
        let mut m = String::new();
        match self {
            GraphError::NoSuchNode { id, count } => {
                push_str(&mut m, "node ");
                push_str(&mut m, decimal_string(*id as u64).as_str());
                push_str(&mut m, " does not exist (document has ");
                push_str(&mut m, decimal_string(*count as u64).as_str());
                push_str(&mut m, " nodes)");
            },
            GraphError::Missing(id) => {
                push_str(&mut m, "node ");
                push_str(&mut m, decimal_string(*id as u64).as_str());
                push_str(&mut m, " does not exist");
            },
            GraphError::Cycle(id) => {
                push_str(&mut m, "cycle in the graph, reached through node ");
                push_str(&mut m, decimal_string(*id as u64).as_str());
            },
            GraphError::BodiesNotRoot(id) => {
                push_str(&mut m, "node ");
                push_str(&mut m, decimal_string(*id as u64).as_str());
                push_str(&mut m, BODIES_NOT_ROOT);
            },
            GraphError::NoBodies => {
                push_str(&mut m, NO_BODIES);
            },
            GraphError::EmptyBodyName => {
                push_str(&mut m, EMPTY_BODY_NAME);
            },
            GraphError::BadMaterial(why) => {
                push_str(&mut m, why.as_str());
            },
            GraphError::DuplicateBodyName(name) => {
                push_str(&mut m, "two bodies are both named ");
                push_str(&mut m, debug_string(name.as_str()).as_str());
                push_str(&mut m, "; give each body its own name");
            },
        }
        m
    }
}

/// Why a group of bodies must be the root.
pub const BODIES_NOT_ROOT: &'static str = " groups several bodies but is not the root: a part's bodies are the last \
    thing a script returns, as `return { base, lid }`, and cannot be unioned, cut, moved or filleted as a \
    group — operate on each body before returning them";

/// Why an empty group of bodies is refused.
pub const NO_BODIES: &'static str = "the part returns no bodies. Return one shape, or an object naming each body: \
    `return { base, lid }`";

/// Why a body needs a name.
pub const EMPTY_BODY_NAME: &'static str = "a body has an empty name; every body is looked up by name, so name each \
    one: `return { base, lid }`";


/// Which of the two section-checked operations a message is about.
#[derive(Clone, Copy, PartialEq, Eq, Structural)]
pub enum SectionKind {
    Revolve,
    Extrude,
}

impl SectionKind {
    /// The operation's name.
    pub fn op(self) -> (s: &'static str)
        ensures
            self == SectionKind::Revolve ==> s@ == "revolve"@,
            self == SectionKind::Extrude ==> s@ == "extrude"@,
    {
        match self {
            SectionKind::Revolve => "revolve",
            SectionKind::Extrude => "extrude",
        }
    }

    /// What one point of its profile is.
    pub fn pair(self) -> (s: &'static str)
        ensures
            self == SectionKind::Revolve ==> s@ == "[radius, z]"@,
            self == SectionKind::Extrude ==> s@ == "[x, y]"@,
    {
        match self {
            SectionKind::Revolve => "[radius, z]",
            SectionKind::Extrude => "[x, y]",
        }
    }

    /// A profile that reads.
    pub fn example(self) -> (s: &'static str)
        ensures
            self == SectionKind::Revolve ==> s@ == "[[0, -5], [4, -5], [0, 5]] for a cone"@,
            self == SectionKind::Extrude ==> s@ == "[[-5, -5], [5, -5], [5, 5], [-5, 5]] for a square"@,
    {
        match self {
            SectionKind::Revolve => "[[0, -5], [4, -5], [0, 5]] for a cone",
            SectionKind::Extrude => "[[-5, -5], [5, -5], [5, 5], [-5, 5]] for a square",
        }
    }
}

/// The value of a hexadecimal digit, if `c` is one.
pub open spec fn hex_value(c: char) -> Option<nat> {
    if '0' <= c && c <= '9' {
        Some((c as nat - '0' as nat) as nat)
    } else if 'a' <= c && c <= 'f' {
        Some((c as nat - 'a' as nat + 10) as nat)
    } else if 'A' <= c && c <= 'F' {
        Some((c as nat - 'A' as nat + 10) as nat)
    } else {
        None
    }
}

/// Two characters read as a byte the way `u8::from_str_radix(_, 16)` reads
/// them: two hex digits, or a `+` sign and one.
pub open spec fn hex_byte(a: char, b: char) -> Option<nat> {
    match (hex_value(a), hex_value(b)) {
        (Some(x), Some(y)) => Some(16 * x + y),
        (None, Some(y)) => if a == '+' { Some(y) } else { None },
        _ => None,
    }
}

/// A `#rrggbb` colour as its three bytes.
pub open spec fn hex_rgb_spec(s: Seq<char>) -> Option<(nat, nat, nat)> {
    if s.len() == 7 && s[0] == '#' {
        match (hex_byte(s[1], s[2]), hex_byte(s[3], s[4]), hex_byte(s[5], s[6])) {
            (Some(r), Some(g), Some(b)) => Some((r, g, b)),
            _ => None,
        }
    } else {
        None
    }
}

/// A byte as two hexadecimal digits.
pub open spec fn byte_spelling(n: nat, upper: bool) -> Seq<char> {
    seq![hex_digits(upper)[(n / 16) as int], hex_digits(upper)[(n % 16) as int]]
}

/// A colour `#rrggbb` with its three bytes spelled in capitals or small.
pub open spec fn colour_spelling(r: nat, g: nat, b: nat, upper: bool) -> Seq<char> {
    seq!['#'] + byte_spelling(r, upper) + byte_spelling(g, upper) + byte_spelling(b, upper)
}

proof fn lemma_hex_digit_values(upper: bool)
    ensures
        forall|d: int| 0 <= d < 16 ==> hex_value(#[trigger] hex_digits(upper)[d]) == Some(d as nat),
{
    let ds = hex_digits(upper);
    assert forall|d: int| 0 <= d < 16 implies hex_value(#[trigger] hex_digits(upper)[d]) == Some(d as nat) by {
        if upper {
            assert(ds[0] == '0' && ds[1] == '1' && ds[2] == '2' && ds[3] == '3' && ds[4] == '4' && ds[5] == '5');
            assert(ds[6] == '6' && ds[7] == '7' && ds[8] == '8' && ds[9] == '9');
            assert(ds[10] == 'A' && ds[11] == 'B' && ds[12] == 'C' && ds[13] == 'D' && ds[14] == 'E' && ds[15] == 'F');
        } else {
            assert(ds[0] == '0' && ds[1] == '1' && ds[2] == '2' && ds[3] == '3' && ds[4] == '4' && ds[5] == '5');
            assert(ds[6] == '6' && ds[7] == '7' && ds[8] == '8' && ds[9] == '9');
            assert(ds[10] == 'a' && ds[11] == 'b' && ds[12] == 'c' && ds[13] == 'd' && ds[14] == 'e' && ds[15] == 'f');
        }
    }
}

/// Any colour written `#rrggbb` reads back as the three bytes it spells,
/// with its digits in capitals or in small letters alike.
pub proof fn lemma_a_colour_reads_back_in_either_case(r: nat, g: nat, b: nat, upper: bool)
    requires
        r < 256,
        g < 256,
        b < 256,
    ensures
        hex_rgb_spec(colour_spelling(r, g, b, upper)) == Some((r, g, b)),
{
    lemma_hex_digit_values(upper);
    let s = colour_spelling(r, g, b, upper);
    let ds = hex_digits(upper);
    assert(s.len() == 7);
    assert(s[1] == ds[(r / 16) as int] && s[2] == ds[(r % 16) as int]);
    assert(s[3] == ds[(g / 16) as int] && s[4] == ds[(g % 16) as int]);
    assert(s[5] == ds[(b / 16) as int] && s[6] == ds[(b % 16) as int]);
    assert(hex_byte(s[1], s[2]) == Some(r));
    assert(hex_byte(s[3], s[4]) == Some(g));
    assert(hex_byte(s[5], s[6]) == Some(b));
}

/// A character a `#rrggbb` colour may hold after its `#`: a digit, a letter
/// from a to f in either case, or the `+` a byte may be signed with.
pub open spec fn colour_char(c: char) -> bool {
    ('0' <= c && c <= '9') || ('a' <= c && c <= 'f') || ('A' <= c && c <= 'F') || c == '+'
}

/// A colour that is not `#` and six more characters, or holds a character
/// no hexadecimal byte is written with, is refused.
pub proof fn lemma_a_colour_that_is_not_hex_is_refused(s: Seq<char>)
    requires
        s.len() != 7 || s[0] != '#' || exists|k: int| 1 <= k < 7 && !colour_char(#[trigger] s[k]),
    ensures
        hex_rgb_spec(s) is None,
{
    if s.len() == 7 && s[0] == '#' {
        let k = choose|k: int| 1 <= k < 7 && !colour_char(#[trigger] s[k]);
        assert(hex_value(s[k]) is None);
    }
}

fn hex_digit(c: char) -> (r: Option<u8>)
    ensures
        r matches Some(v) ==> hex_value(c) == Some(v as nat),
        r is None ==> hex_value(c) is None,
{
    if '0' <= c && c <= '9' {
        Some((c as u32 - '0' as u32) as u8)
    } else if 'a' <= c && c <= 'f' {
        Some((c as u32 - 'a' as u32 + 10) as u8)
    } else if 'A' <= c && c <= 'F' {
        Some((c as u32 - 'A' as u32 + 10) as u8)
    } else {
        None
    }
}

fn byte_of(a: char, b: char) -> (r: Option<u8>)
    ensures
        r matches Some(v) ==> hex_byte(a, b) == Some(v as nat),
        r is None ==> hex_byte(a, b) is None,
{
    match (hex_digit(a), hex_digit(b)) {
        (Some(x), Some(y)) => Some(16 * x + y),
        (None, Some(y)) => if a == '+' { Some(y) } else { None },
        _ => None,
    }
}

/// The colour as three bytes; `None` for anything but `#rrggbb`.
pub fn hex_rgb(color: &str) -> (r: Option<[u8; 3]>)
    ensures
        r matches Some(px) ==> hex_rgb_spec(color@) == Some((px[0] as nat, px[1] as nat, px[2] as nat)),
        r is None ==> hex_rgb_spec(color@) is None,
{
    let cs = crate::text::chars_of(color);
    if cs.len() != 7 || cs[0] != '#' {
        return None;
    }
    let r = byte_of(cs[1], cs[2]);
    let g = byte_of(cs[3], cs[4]);
    let b = byte_of(cs[5], cs[6]);
    match (r, g, b) {
        (Some(r), Some(g), Some(b)) => Some([r, g, b]),
        _ => None,
    }
}

/// The treatments among `order`, in that order, each with its node.
pub open spec fn treated(nodes: Seq<Node>, order: Seq<NodeId>) -> Seq<(NodeId, Treatment)>
    decreases order.len(),
{
    if order.len() == 0 {
        Seq::empty()
    } else {
        let id = order.last();
        let rest = treated(nodes, order.drop_last());
        match nodes[id as int].treatment {
            Some(t) => rest.push((id, t)),
            None => rest,
        }
    }
}

impl Doc {
    /// The edge treatments the root depends on, in dependency order: only
    /// live nodes, since a fillet the root does not reach is not in the part.
    /// A graph that cannot be ordered has none to report.
    pub fn treatments(&self) -> (v: Vec<(NodeId, Treatment)>)
        ensures
            !(self.closed_acyclic() && self.bodies_valid() && self.materials_valid()) ==> v@.len() == 0,
            self.closed_acyclic() && self.bodies_valid() && self.materials_valid() ==> exists|order: Seq<NodeId>|
                self.dependency_order(order) && v@ == treated(self.nodes@, order),
    {
        let order = match self.topo_order() {
            Ok(o) => o,
            Err(_) => {
                return Vec::new();
            },
        };
        let mut v: Vec<(NodeId, Treatment)> = Vec::new();
        let mut i: usize = 0;
        while i < order.len()
            invariant
                i <= order@.len(),
                self.dependency_order(order@),
                v@ == treated(self.nodes@, order@.take(i as int)),
            decreases order@.len() - i,
        {
            let id = order[i];
            proof {
                assert(order@.take(i + 1).drop_last() == order@.take(i as int));
                assert(id < self.nodes.len());
            }
            match self.nodes[id].treatment {
                Some(t) => {
                    v.push((id, t));
                },
                None => {},
            }
            i = i + 1;
        }
        assert(order@.take(order@.len() as int) == order@);
        v
    }
}

/// A surface appearance: a colour, how rough and how metallic, how opaque,
/// the light it gives off, and a clear lacquer over it.
pub struct Material {
    /// `#rrggbb`, sRGB.
    pub color: String,
    /// 0 is mirror-smooth, 1 fully diffuse.
    pub roughness: Number,
    /// 0 is a dielectric, 1 bare metal.
    pub metalness: Number,
    /// 1 is solid, towards 0 see-through; never 0.
    pub opacity: Number,
    /// `#rrggbb` light the surface gives off, if any.
    pub emissive: Option<String>,
    /// A clear lacquer layer, 0 to 1.
    pub clearcoat: Number,
}

/// A number from 0 to 1, both ends included.
pub open spec fn unit_interval(n: Number) -> bool {
    n.sign == Sign::Zero || (n.sign == Sign::Positive && n.at_most_one)
}

/// What a setting outside 0 to 1 is told.
pub open spec fn out_of_unit(id: NodeId, name: Seq<char>, n: Number) -> Seq<char> {
    "node "@ + decimal(id as nat) + " has material "@ + name + " "@ + n.shown@ + "; it runs from 0 to 1"@
}

/// What a colour that is not six hex digits is told.
pub open spec fn bad_colour(id: NodeId, name: Seq<char>, color: Seq<char>) -> Seq<char> {
    "node "@ + decimal(id as nat) + " has material "@ + name + " "@ + quoted(color)
        + "; write it as six hex digits, e.g. \"#c83c32\""@
}

impl Material {
    /// Whether the material reads, as node `id`'s, or what is wrong with it.
    pub open spec fn validation(&self, id: NodeId) -> Result<(), Seq<char>> {
        if hex_rgb_spec(self.color@) is None {
            Err(bad_colour(id, "colour"@, self.color@))
        } else if self.emissive matches Some(e) && hex_rgb_spec(e@) is None {
            Err(bad_colour(id, "emissive"@, self.emissive->0@))
        } else if !unit_interval(self.roughness) {
            Err(out_of_unit(id, "roughness"@, self.roughness))
        } else if !unit_interval(self.metalness) {
            Err(out_of_unit(id, "metalness"@, self.metalness))
        } else if !unit_interval(self.clearcoat) {
            Err(out_of_unit(id, "clearcoat"@, self.clearcoat))
        } else if !(self.opacity.sign == Sign::Positive && self.opacity.at_most_one) {
            Err("node "@ + decimal(id as nat) + " has material opacity "@ + self.opacity.shown@
                + "; it runs above 0 up to 1, and a body nobody should see belongs out of the returned object instead"@)
        } else {
            Ok(())
        }
    }

    /// The colour as three bytes; `None` for anything but `#rrggbb`.
    pub fn rgb(&self) -> (r: Option<[u8; 3]>)
        ensures
            r matches Some(px) ==> hex_rgb_spec(self.color@) == Some((px[0] as nat, px[1] as nat, px[2] as nat)),
            r is None ==> hex_rgb_spec(self.color@) is None,
    {
        hex_rgb(self.color.as_str())
    }

    /// Whether the material reads, as node `id`'s.
    pub fn validate(&self, id: NodeId) -> (r: Result<(), String>)
        ensures
            r matches Ok(_) ==> self.validation(id) is Ok,
            r matches Err(e) ==> self.validation(id) == Err::<(), Seq<char>>(e@),
    {
        if hex_rgb(self.color.as_str()).is_none() {
            return Err(colour_refusal(id, "colour", self.color.as_str()));
        }
        match &self.emissive {
            Some(e) => {
                if hex_rgb(e.as_str()).is_none() {
                    return Err(colour_refusal(id, "emissive", e.as_str()));
                }
            },
            None => {},
        }
        if !in_unit(&self.roughness) {
            return Err(unit_refusal(id, "roughness", &self.roughness));
        }
        if !in_unit(&self.metalness) {
            return Err(unit_refusal(id, "metalness", &self.metalness));
        }
        if !in_unit(&self.clearcoat) {
            return Err(unit_refusal(id, "clearcoat", &self.clearcoat));
        }
        if !(self.opacity.sign == Sign::Positive && self.opacity.at_most_one) {
            let mut m = String::from_str("node ");
            push_str(&mut m, decimal_string(id as u64).as_str());
            push_str(&mut m, " has material opacity ");
            push_str(&mut m, self.opacity.shown.as_str());
            push_str(
                &mut m,
                "; it runs above 0 up to 1, and a body nobody should see belongs out of the returned object instead",
            );
            return Err(m);
        }
        Ok(())
    }
}

fn in_unit(n: &Number) -> (b: bool)
    ensures
        b == unit_interval(*n),
{
    n.sign == Sign::Zero || (n.sign == Sign::Positive && n.at_most_one)
}

fn unit_refusal(id: NodeId, name: &str, n: &Number) -> (m: String)
    ensures
        m@ == out_of_unit(id, name@, *n),
{
    let mut m = String::from_str("node ");
    push_str(&mut m, decimal_string(id as u64).as_str());
    push_str(&mut m, " has material ");
    push_str(&mut m, name);
    push_str(&mut m, " ");
    push_str(&mut m, n.shown.as_str());
    push_str(&mut m, "; it runs from 0 to 1");
    m
}

fn colour_refusal(id: NodeId, name: &str, color: &str) -> (m: String)
    ensures
        m@ == bad_colour(id, name@, color@),
{
    let mut m = String::from_str("node ");
    push_str(&mut m, decimal_string(id as u64).as_str());
    push_str(&mut m, " has material ");
    push_str(&mut m, name);
    push_str(&mut m, " ");
    push_str(&mut m, debug_string(color).as_str());
    push_str(&mut m, "; write it as six hex digits, e.g. \"#c83c32\"");
    m
}

impl Doc {
    /// Node `x` has a material, and it is refused for this reason.
    pub open spec fn refuses_material(self, x: NodeId, why: Seq<char>) -> bool {
        match self.nodes@[x as int].material {
            Some(m) => m.validation(x) == Err::<(), Seq<char>>(why),
            None => false,
        }
    }

    /// Every material the root depends on reads.
    pub open spec fn materials_valid(self) -> bool {
        forall|x: NodeId|
            #[trigger] self.reaches(x) && x < self.nodes.len() ==> (self.nodes@[x as int].material matches Some(m) ==> m.validation(x) is Ok)
    }

    /// Check the materials of the nodes in `order`, which lists what the
    /// root depends on; the first that does not read is refused.
    fn check_materials(&self, order: &Vec<NodeId>) -> (r: Result<(), String>)
        requires
            self.dependency_order(order@),
        ensures
            r is Ok <==> self.materials_valid(),
            r matches Err(why) ==> exists|x: NodeId|
                self.reaches(x) && x < self.nodes.len() && #[trigger] self.refuses_material(x, why@),
    {
        let mut k: usize = 0;
        while k < order.len()
            invariant
                k <= order@.len(),
                self.dependency_order(order@),
                forall|j: int|
                    0 <= j < k ==> (self.nodes@[(#[trigger] order@[j]) as int].material matches Some(m) ==> m.validation(order@[j]) is Ok),
            decreases order@.len() - k,
        {
            let id = order[k];
            assert(id < self.nodes.len() && self.reaches(id));
            match &self.nodes[id].material {
                Some(m) => {
                    match m.validate(id) {
                        Ok(()) => {},
                        Err(why) => {
                            assert(self.refuses_material(id, why@));
                            return Err(why);
                        },
                    }
                },
                None => {},
            }
            k = k + 1;
        }
        proof {
            assert forall|x: NodeId| #[trigger] self.reaches(x) && x < self.nodes.len() implies (self.nodes@[x as int].material matches Some(m) ==> m.validation(x) is Ok) by {
                assert(order@.contains(x));
                let j = choose|j: int| 0 <= j < order@.len() && order@[j] == x;
                assert(self.nodes@[(order@[j]) as int].material matches Some(m) ==> m.validation(order@[j]) is Ok);
            }
        }
        Ok(())
    }
}

} // verus!
