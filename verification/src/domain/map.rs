//! Road network: nodes with coordinates, joined by directed weighted edges.
//!
//! Coordinates and costs are binary fixed-point numbers with sixteen fractional
//! bits: one metre is [`UNITS_PER_METRE`] units.

use crate::table::small_keys;
use crate::text::decimal_text;
use smallvec::SmallVec;
use std::collections::HashMap;
use vstd::prelude::*;

verus! {

broadcast use vstd::std_specs::hash::group_hash_axioms;

/// Units of a coordinate or a cost per metre.
pub const UNITS_PER_METRE: i64 = 65_536;

/// Identifier of a node of the road network.
#[derive(Debug, Clone, Copy, PartialEq, Eq, PartialOrd, Ord, Hash, Structural)]
pub struct NodeId(pub u32);

impl NodeId {
    /// The node's name: `N` and its number.
    pub fn label(&self) -> (r: String)
        ensures
            r@ == "N"@ + crate::text::decimal(self.0 as nat),
    {
        let mut out = String::new();
        out.append("N");
        out.append(decimal_text(self.0 as u64).as_str());
        assert(out@ =~= "N"@ + crate::text::decimal(self.0 as nat));
        out
    }
}

/// A point in the plane, in fixed-point units.
#[derive(Debug, Clone, Copy, PartialEq, Eq, Structural)]
pub struct Location {
    pub x: i64,
    pub y: i64,
    /// The node that the point belongs to; none for a robot that left the network.
    pub node: Option<NodeId>,
}

/// The square of the distance between two points.
pub open spec fn squared_distance(a: Location, b: Location) -> nat {
    ((a.x - b.x) * (a.x - b.x) + (a.y - b.y) * (a.y - b.y)) as nat
}

/// Whether `r` is the square root of `n`, rounded down.
pub open spec fn is_floor_sqrt(n: nat, r: nat) -> bool {
    r * r <= n < (r + 1) * (r + 1)
}

/// The square root of `n`, rounded down.
pub open spec fn floor_sqrt(n: nat) -> nat {
    choose|r: nat| is_floor_sqrt(n, r)
}

/// The Euclidean distance between two points, rounded down to a whole unit.
pub open spec fn distance(a: Location, b: Location) -> nat {
    floor_sqrt(squared_distance(a, b))
}

/// There is at most one rounded-down square root.
pub proof fn lemma_floor_sqrt_unique(n: nat, r: nat)
    requires
        is_floor_sqrt(n, r),
    ensures
        floor_sqrt(n) == r,
{
    let s = floor_sqrt(n);
    assert(is_floor_sqrt(n, s));
    if s < r {
        assert((s + 1) * (s + 1) <= r * r) by (nonlinear_arith)
            requires
                s + 1 <= r,
        ;
    }
    if r < s {
        assert((r + 1) * (r + 1) <= s * s) by (nonlinear_arith)
            requires
                r + 1 <= s,
        ;
    }
}

/// Every number has a rounded-down square root.
pub proof fn lemma_floor_sqrt(n: nat)
    ensures
        is_floor_sqrt(n, floor_sqrt(n)),
    decreases n,
{
    if n == 0 {
        assert(0nat * 0nat == 0 && (0nat + 1) * (0nat + 1) == 1) by (nonlinear_arith);
        assert(is_floor_sqrt(0, 0));
    } else {
        let m = (n - 1) as nat;
        lemma_floor_sqrt(m);
        let r = floor_sqrt(m);
        if n < (r + 1) * (r + 1) {
            assert(is_floor_sqrt(n, r));
        } else {
            assert((r + 1) * (r + 1) < (r + 2) * (r + 2)) by (nonlinear_arith);
            assert(is_floor_sqrt(n, r + 1));
        }
    }
}

/// The rounded-down square root of the sum of two squares, of `long` and of `short`.
fn root_of_squares(long: u128, short: u128) -> (r: u128)
    requires
        short <= long < 0x1_0000_0000_0000_0000,
    ensures
        r == floor_sqrt((long * long + short * short) as nat),
        r < 0x2_0000_0000_0000_0000,
{
    assert(short * short <= 0xffff_ffff_ffff_ffff * 0xffff_ffff_ffff_ffff) by (nonlinear_arith)
        requires
            short <= 0xffff_ffff_ffff_ffff,
    ;
    let square: u128 = short * short;
    let mut low: u128 = 0;
    let mut high: u128 = short + 1;
    assert((short + 1) * (2 * long + (short + 1)) > short * short) by (nonlinear_arith);
    while high - low > 1
        invariant
            short <= long < 0x1_0000_0000_0000_0000,
            square == short * short,
            low < high <= short + 1,
            low * (2 * long + low) <= square < high * (2 * long + high),
        decreases high - low,
    {
        let mid: u128 = low + (high - low) / 2;
        let fits = match mid.checked_mul(2 * long + mid) {
            Some(p) => p <= square,
            None => false,
        };
        if fits {
            low = mid;
        } else {
            high = mid;
        }
    }
    proof {
        let n = (long * long + short * short) as nat;
        let r = (long + low) as nat;
        assert(long * long + short * short >= 0) by (nonlinear_arith);
        assert(r * r == long * long + low * (2 * long + low)) by (nonlinear_arith)
            requires
                r == long + low,
        ;
        assert((r + 1) * (r + 1) == long * long + high * (2 * long + high)) by (nonlinear_arith)
            requires
                r == long + low,
                high == low + 1,
        ;
        assert(is_floor_sqrt(n, r));
        lemma_floor_sqrt_unique(n, r);
    }
    long + low
}

/// How far two coordinates are apart.
fn gap(a: i64, b: i64) -> (r: u128)
    ensures
        r == (if a < b {
            b - a
        } else {
            a - b
        }),
        r * r == (a - b) * (a - b),
        r < 0x1_0000_0000_0000_0000,
{
    assert((b - a) * (b - a) == (a - b) * (a - b)) by (nonlinear_arith);
    if a < b {
        (b as i128 - a as i128) as u128
    } else {
        (a as i128 - b as i128) as u128
    }
}

impl Location {
    /// The point of a node.
    pub fn at_node(node: NodeId, x: i64, y: i64) -> (r: Self)
        ensures
            r == (Location { x, y, node: Some(node) }),
    {
        Self { x, y, node: Some(node) }
    }

    /// The Euclidean distance to another point, rounded down to a whole unit.
    pub fn distance_to(&self, other: &Location) -> (r: u128)
        ensures
            r == distance(*self, *other),
            r < 0x2_0000_0000_0000_0000,
    {
        let dx: u128 = gap(self.x, other.x);
        let dy: u128 = gap(self.y, other.y);
        if dx < dy {
            root_of_squares(dy, dx)
        } else {
            root_of_squares(dx, dy)
        }
    }

    /// Whether this point is nearer to `to` than `other` is. The distances are not rounded.
    pub fn is_nearer(&self, other: &Location, to: &Location) -> (r: bool)
        ensures
            r == (squared_distance(*self, *to) < squared_distance(*other, *to)),
    {
        let (ax, ay) = (gap(self.x, to.x), gap(self.y, to.y));
        let (bx, by) = (gap(other.x, to.x), gap(other.y, to.y));
        proof {
            lemma_square_fits(ax);
            lemma_square_fits(ay);
            lemma_square_fits(bx);
            lemma_square_fits(by);
        }
        less_together(ax * ax, ay * ay, bx * bx, by * by)
    }
}

/// Whether `a` and `b` are together less than `c` and `d`. The sums need not fit in 128 bits.
fn less_together(a: u128, b: u128, c: u128, d: u128) -> (r: bool)
    ensures
        r == (a + b < c + d),
{
    if a <= c {
        b < d || b - d < c - a
    } else {
        b < d && a - c < d - b
    }
}

/// Whether `cost` is at least the distance between two points.
fn covers(cost: u64, a: &Location, b: &Location) -> (r: bool)
    ensures
        r == (cost * cost >= squared_distance(*a, *b)),
{
    let c: u128 = cost as u128;
    let dx: u128 = gap(a.x, b.x);
    let dy: u128 = gap(a.y, b.y);
    proof {
        lemma_square_fits(c);
        lemma_square_fits(dx);
        lemma_square_fits(dy);
    }
    c * c >= dx * dx && c * c - dx * dx >= dy * dy
}

/// The square of a number of 64 bits has no more than 128 bits.
proof fn lemma_square_fits(n: u128)
    requires
        n < 0x1_0000_0000_0000_0000,
    ensures
        0 <= n * n <= u128::MAX,
{
    assert(0 <= n * n <= 0xffff_ffff_ffff_ffff * 0xffff_ffff_ffff_ffff) by (nonlinear_arith)
        requires
            0 <= n <= 0xffff_ffff_ffff_ffff,
    ;
}

/// A directed edge of the road network.
#[derive(Debug, Clone, Copy, PartialEq, Eq, Structural)]
pub struct Edge {
    pub from: NodeId,
    pub to: NodeId,
    /// The cost of driving along the edge, in fixed-point units.
    pub cost: u64,
}

/// A route: a sequence of nodes, the first eight of them stored inline.
#[verifier::external_body]
#[derive(Debug)]
pub struct Path {
    nodes: SmallVec<[NodeId; 8]>,
}

/// The nodes of a route, in driving order.
pub uninterp spec fn path_nodes(path: Path) -> Seq<NodeId>;

impl View for Path {
    type V = Seq<NodeId>;

    open spec fn view(&self) -> Seq<NodeId> {
        path_nodes(*self)
    }
}

/// `smallvec::SmallVec::new`: a new vector holds nothing.
#[verifier::external_body]
fn path_new() -> (r: Path)
    ensures
        path_nodes(r) == Seq::<NodeId>::empty(),
{
    Path { nodes: SmallVec::new() }
}

/// `smallvec::SmallVec::push`: the item is added behind the last one.
#[verifier::external_body]
fn path_push(path: &mut Path, node: NodeId)
    ensures
        path_nodes(*final(path)) == path_nodes(*old(path)).push(node),
{
    path.nodes.push(node)
}

/// `smallvec::SmallVec::as_slice`: all items, in order.
#[verifier::external_body]
fn path_slice(path: &Path) -> (r: &[NodeId])
    ensures
        r@ == path_nodes(*path),
{
    path.nodes.as_slice()
}

impl Path {
    /// A route without nodes.
    pub fn new() -> (r: Self)
        ensures
            r@ == Seq::<NodeId>::empty(),
    {
        path_new()
    }

    /// Adds a node at the end of the route.
    pub fn push(&mut self, node: NodeId)
        ensures
            final(self)@ == old(self)@.push(node),
    {
        path_push(self, node)
    }

    /// The nodes as a slice.
    pub fn as_slice(&self) -> (r: &[NodeId])
        ensures
            r@ == self@,
    {
        path_slice(self)
    }

    /// The number of nodes.
    pub fn len(&self) -> (r: usize)
        ensures
            r == self@.len(),
    {
        self.as_slice().len()
    }

    /// The nodes as a vector of their own.
    pub fn to_vec(&self) -> (r: Vec<NodeId>)
        ensures
            r@ == self@,
    {
        let nodes = self.as_slice();
        let mut out: Vec<NodeId> = Vec::new();
        let mut i: usize = 0;
        while i < nodes.len()
            invariant
                i <= nodes@.len(),
                nodes@ == self@,
                out@ == nodes@.take(i as int),
            decreases nodes@.len() - i,
        {
            out.push(nodes[i]);
            i = i + 1;
            assert(out@ =~= nodes@.take(i as int));
        }
        assert(out@ =~= self@);
        out
    }

    /// Adds the nodes of `other` from the position `skip` on.
    pub fn extend_from(&mut self, other: &Path, skip: usize)
        ensures
            final(self)@ == old(self)@ + other@.skip(
                if skip <= other@.len() {
                    skip as int
                } else {
                    other@.len() as int
                },
            ),
    {
        let nodes = other.as_slice();
        let start: usize = if skip <= nodes.len() {
            skip
        } else {
            nodes.len()
        };
        let mut i: usize = start;
        while i < nodes.len()
            invariant
                start <= i <= nodes@.len(),
                nodes@ == other@,
                self@ == old(self)@ + nodes@.subrange(start as int, i as int),
            decreases nodes@.len() - i,
        {
            self.push(nodes[i]);
            i = i + 1;
            assert(self@ =~= old(self)@ + nodes@.subrange(start as int, i as int));
        }
        assert(self@ =~= old(self)@ + other@.skip(start as int));
    }
}

impl Clone for Path {
    fn clone(&self) -> (r: Self)
        ensures
            r@ == self@,
    {
        let mut out = Path::new();
        out.extend_from(self, 0);
        assert(out@ =~= self@);
        out
    }
}

/// The edges that leave a node, the first four of them stored inline.
#[verifier::external_body]
#[derive(Debug)]
pub struct EdgeList {
    edges: SmallVec<[Edge; 4]>,
}

/// The edges of a list, in the order in which they were added.
pub uninterp spec fn listed_edges(list: EdgeList) -> Seq<Edge>;

impl View for EdgeList {
    type V = Seq<Edge>;

    open spec fn view(&self) -> Seq<Edge> {
        listed_edges(*self)
    }
}

/// `smallvec::SmallVec::new`: a new vector holds nothing.
#[verifier::external_body]
fn edge_list_new() -> (r: EdgeList)
    ensures
        listed_edges(r) == Seq::<Edge>::empty(),
{
    EdgeList { edges: SmallVec::new() }
}

/// `smallvec::SmallVec::push`: the item is added behind the last one.
#[verifier::external_body]
fn edge_list_push(list: &mut EdgeList, edge: Edge)
    ensures
        listed_edges(*final(list)) == listed_edges(*old(list)).push(edge),
{
    list.edges.push(edge)
}

/// `smallvec::SmallVec::as_slice`: all items, in order.
#[verifier::external_body]
fn edge_list_slice(list: &EdgeList) -> (r: &[Edge])
    ensures
        r@ == listed_edges(*list),
{
    list.edges.as_slice()
}

impl EdgeList {
    /// The edges as a slice.
    pub fn as_slice(&self) -> (r: &[Edge])
        ensures
            r@ == self@,
    {
        edge_list_slice(self)
    }
}

impl Clone for EdgeList {
    fn clone(&self) -> (r: Self)
        ensures
            r@ == self@,
    {
        let edges = self.as_slice();
        let mut out = edge_list_new();
        let mut i: usize = 0;
        while i < edges.len()
            invariant
                i <= edges@.len(),
                out@ == edges@.take(i as int),
            decreases edges@.len() - i,
        {
            edge_list_push(&mut out, edges[i]);
            i = i + 1;
            assert(out@ =~= edges@.take(i as int));
        }
        assert(out@ =~= self@);
        out
    }
}

/// The mathematical content of a road network.
#[verifier::ext_equal]
pub struct RoadMapView {
    /// Node number to coordinates.
    pub nodes: Map<u32, Location>,
    /// Node number to the edges that leave the node, in the order of their insertion.
    pub edges: Map<u32, Seq<Edge>>,
}

impl RoadMapView {
    /// Edges are filed under the node they leave, and both ends of an edge are known.
    pub open spec fn wf(self) -> bool {
        forall|n: u32, i: int|
            #![trigger self.edges[n][i]]
            self.edges.contains_key(n) && 0 <= i < self.edges[n].len() ==> {
                &&& self.edges[n][i].from.0 == n
                &&& self.edges.contains_key(self.edges[n][i].to.0)
            }
    }

    /// The edges that leave a node; none for an unknown node.
    pub open spec fn out(self, n: u32) -> Seq<Edge> {
        if self.edges.contains_key(n) {
            self.edges[n]
        } else {
            Seq::empty()
        }
    }

    /// The network with the coordinates of one node set.
    pub open spec fn with_node(self, id: NodeId, loc: Location) -> RoadMapView {
        RoadMapView { nodes: self.nodes.insert(id.0, loc), edges: self.edges }
    }

    /// The network with one more edge.
    pub open spec fn with_edge(self, edge: Edge) -> RoadMapView {
        let pushed = self.edges.insert(edge.from.0, self.out(edge.from.0).push(edge));
        RoadMapView {
            nodes: self.nodes,
            edges: if pushed.contains_key(edge.to.0) {
                pushed
            } else {
                pushed.insert(edge.to.0, Seq::empty())
            },
        }
    }
}

/// Whether an edge out of node `n` costs no less than the straight line between its ends, which
/// both have coordinates.
pub open spec fn covers_distance(map: RoadMapView, n: u32, edge: Edge) -> bool {
    &&& map.nodes.contains_key(n)
    &&& map.nodes.contains_key(edge.to.0)
    &&& edge.cost * edge.cost >= squared_distance(map.nodes[n], map.nodes[edge.to.0])
}

/// Whether no edge is cheaper than the straight line between its ends, which both have
/// coordinates.
pub open spec fn costs_cover_distances(map: RoadMapView) -> bool {
    forall|n: u32, i: int|
        #![trigger map.edges[n][i]]
        map.edges.contains_key(n) && 0 <= i < map.edges[n].len() ==> covers_distance(
            map,
            n,
            map.edges[n][i],
        )
}

/// The road network.
#[derive(Debug)]
pub struct RoadMap {
    nodes: HashMap<u32, Location>,
    adjacency: HashMap<u32, EdgeList>,
}

impl View for RoadMap {
    type V = RoadMapView;

    closed spec fn view(&self) -> RoadMapView {
        RoadMapView {
            nodes: self.nodes@,
            edges: self.adjacency@.map_values(|list: EdgeList| list@),
        }
    }
}

impl Default for RoadMap {
    fn default() -> (r: Self)
        ensures
            r@.nodes == Map::<u32, Location>::empty(),
            r@.edges == Map::<u32, Seq<Edge>>::empty(),
            r@.wf(),
    {
        Self::new()
    }
}

impl Clone for RoadMap {
    fn clone(&self) -> (r: Self)
        ensures
            r@ == self@,
    {
        let mut nodes: HashMap<u32, Location> = HashMap::new();
        let numbers = small_keys(&self.nodes);
        let mut i: usize = 0;
        while i < numbers.len()
            invariant
                i <= numbers@.len(),
                numbers@.to_set() == self.nodes@.dom(),
                forall|n: u32| #[trigger]
                    nodes@.contains_key(n) <==> numbers@.take(i as int).contains(n),
                forall|n: u32| #[trigger]
                    nodes@.contains_key(n) ==> nodes@[n] == self.nodes@[n],
            decreases numbers@.len() - i,
        {
            let n: u32 = numbers[i];
            proof {
                assert(numbers@.to_set().contains(numbers@[i as int]));
                lemma_take_one_more(numbers@, i as int);
            }
            if let Some(l) = self.nodes.get(&n) {
                nodes.insert(n, *l);
            }
            i = i + 1;
        }
        let mut adjacency: HashMap<u32, EdgeList> = HashMap::new();
        let starts = small_keys(&self.adjacency);
        let mut k: usize = 0;
        while k < starts.len()
            invariant
                k <= starts@.len(),
                starts@.to_set() == self.adjacency@.dom(),
                forall|n: u32| #[trigger]
                    adjacency@.contains_key(n) <==> starts@.take(k as int).contains(n),
                forall|n: u32| #[trigger]
                    adjacency@.contains_key(n) ==> adjacency@[n]@ == self.adjacency@[n]@,
            decreases starts@.len() - k,
        {
            let n: u32 = starts[k];
            proof {
                assert(starts@.to_set().contains(starts@[k as int]));
                lemma_take_one_more(starts@, k as int);
            }
            if let Some(list) = self.adjacency.get(&n) {
                adjacency.insert(n, list.clone());
            }
            k = k + 1;
        }
        let r = RoadMap { nodes, adjacency };
        proof {
            assert(numbers@.take(i as int) =~= numbers@);
            assert(starts@.take(k as int) =~= starts@);
            assert forall|n: u32| self.nodes@.contains_key(n) <==> nodes@.contains_key(n) by {
                assert(numbers@.to_set().contains(n) <==> self.nodes@.dom().contains(n));
            }
            assert forall|n: u32| self.adjacency@.contains_key(n) <==> adjacency@.contains_key(
                n,
            ) by {
                assert(starts@.to_set().contains(n) <==> self.adjacency@.dom().contains(n));
            }
            assert(r@.nodes =~= self@.nodes);
            assert(r@.edges =~= self@.edges);
        }
        r
    }
}

/// What the first `i + 1` items hold, the first `i` hold or item `i` is.
proof fn lemma_take_one_more(s: Seq<u32>, i: int)
    requires
        0 <= i < s.len(),
    ensures
        forall|n: u32| #[trigger]
            s.take(i + 1).contains(n) <==> s.take(i).contains(n) || n == s[i],
{
    assert forall|n: u32| #[trigger] s.take(i + 1).contains(n) <==> s.take(i).contains(n) || n
        == s[i] by {
        if s.take(i + 1).contains(n) {
            let j = s.take(i + 1).index_of(n);
            if j < i {
                assert(s.take(i)[j] == n);
            }
        }
        if s.take(i).contains(n) {
            let j = s.take(i).index_of(n);
            assert(s.take(i + 1)[j] == n);
        }
        assert(s.take(i + 1)[i] == s[i]);
    }
}

/// The points of the nodes of a network, each under its node, in some order.
pub open spec fn lists_nodes(list: Seq<(NodeId, Location)>, nodes: Map<u32, Location>) -> bool {
    &&& forall|i: int|
        #![trigger list[i]]
        0 <= i < list.len() ==> nodes.contains_key(list[i].0.0) && nodes[list[i].0.0] == list[i].1
    &&& forall|i: int, j: int|
        #![trigger list[i], list[j]]
        0 <= i < j < list.len() ==> list[i].0 != list[j].0
    &&& forall|n: u32| #[trigger]
        nodes.contains_key(n) ==> exists|i: int| 0 <= i < list.len() && (#[trigger] list[i]).0.0 == n
}

impl RoadMap {
    /// An empty network.
    pub fn new() -> (r: Self)
        ensures
            r@.nodes == Map::<u32, Location>::empty(),
            r@.edges == Map::<u32, Seq<Edge>>::empty(),
            r@.wf(),
    {
        let r = Self { nodes: HashMap::new(), adjacency: HashMap::new() };
        assert(r@.edges =~= Map::<u32, Seq<Edge>>::empty());
        r
    }

    /// Registers a node, or moves a known one.
    pub fn add_node(&mut self, id: NodeId, loc: Location)
        ensures
            final(self)@ == old(self)@.with_node(id, loc),
            old(self)@.wf() ==> final(self)@.wf(),
    {
        self.nodes.insert(id.0, loc);
        assert(self@ =~= old(self)@.with_node(id, loc));
    }

    /// Adds a directed edge and makes both of its ends known to the network.
    pub fn add_edge(&mut self, edge: Edge)
        ensures
            final(self)@ == old(self)@.with_edge(edge),
            old(self)@.wf() ==> final(self)@.wf(),
    {
        let mut list = match self.adjacency.remove(&edge.from.0) {
            Some(list) => list,
            None => edge_list_new(),
        };
        edge_list_push(&mut list, edge);
        self.adjacency.insert(edge.from.0, list);
        if !self.adjacency.contains_key(&edge.to.0) {
            self.adjacency.insert(edge.to.0, edge_list_new());
        }
        assert(self@ =~= old(self)@.with_edge(edge)) by {
            assert(self@.edges =~= old(self)@.with_edge(edge).edges);
        }
    }

    /// The coordinates of a node.
    pub fn node_location(&self, id: NodeId) -> (r: Option<&Location>)
        ensures
            match r {
                Some(loc) => self@.nodes.contains_key(id.0) && *loc == self@.nodes[id.0],
                None => !self@.nodes.contains_key(id.0),
            },
    {
        self.nodes.get(&id.0)
    }

    /// The number of nodes that have coordinates.
    pub fn node_count(&self) -> (r: usize)
        ensures
            r == self@.nodes.len(),
    {
        self.nodes.len()
    }

    /// The edges that leave a node.
    pub fn edges_from(&self, id: NodeId) -> (r: Option<&EdgeList>)
        ensures
            match r {
                Some(list) => self@.edges.contains_key(id.0) && list@ == self@.edges[id.0],
                None => !self@.edges.contains_key(id.0),
            },
    {
        self.adjacency.get(&id.0)
    }

    /// Whether no edge is cheaper than the straight line between its ends, which both have
    /// coordinates.
    pub fn covers_distances(&self) -> (r: bool)
        ensures
            r == costs_cover_distances(self@),
    {
        let ghost m = self@;
        let walker = self.adjacency.iter();
        let ghost walk = vstd::std_specs::iter::IteratorSpec::remaining(&walker);
        assert forall|i: int| 0 <= i < walk.len() implies self.adjacency@.contains_key(
            *(#[trigger] walk[i]).0,
        ) && self.adjacency@[*walk[i].0] == *walk[i].1 by {}
        for entry in it: walker
            invariant
                m == self@,
                it.seq() == walk,
                forall|i: int|
                    0 <= i < walk.len() ==> self.adjacency@.contains_key(*(#[trigger] walk[i]).0)
                        && self.adjacency@[*walk[i].0] == *walk[i].1,
                forall|i: int, k: int|
                    #![trigger walk[i].1@[k]]
                    0 <= i < it.index() && 0 <= k < walk[i].1@.len() ==> covers_distance(
                        m,
                        *walk[i].0,
                        walk[i].1@[k],
                    ),
        {
            let n: u32 = *entry.0;
            assert(entry == walk[it.index()]);
            assert(m.edges.contains_key(n) && m.edges[n] == entry.1@);
            if !self.covered_from(NodeId(n), entry.1.as_slice()) {
                return false;
            }
        }
        proof {
            assert forall|n: u32, k: int|
                #![trigger m.edges[n][k]]
                m.edges.contains_key(n) && 0 <= k < m.edges[n].len() implies covers_distance(
                m,
                n,
                m.edges[n][k],
            ) by {
                assert(self.adjacency@.contains_key(n));
                let i = walk.index_of((&n, &self.adjacency@[n]));
                assert(walk[i].1@[k] == m.edges[n][k]);
            }
        }
        true
    }

    /// Whether none of the edges out of a node is cheaper than its straight line.
    fn covered_from(&self, from: NodeId, edges: &[Edge]) -> (r: bool)
        ensures
            r == forall|k: int|
                0 <= k < edges@.len() ==> covers_distance(self@, from.0, #[trigger] edges@[k]),
    {
        let mut k: usize = 0;
        while k < edges.len()
            invariant
                k <= edges@.len(),
                forall|j: int|
                    0 <= j < k ==> covers_distance(self@, from.0, #[trigger] edges@[j]),
            decreases edges@.len() - k,
        {
            let edge = edges[k];
            assert(edges@[k as int] == edge);
            let covered = match (self.node_location(from), self.node_location(edge.to)) {
                (Some(a), Some(b)) => covers(edge.cost, a, b),
                _ => false,
            };
            if !covered {
                return false;
            }
            k = k + 1;
        }
        true
    }

    /// All nodes with their coordinates, in no particular order.
    pub fn all_node_locations(&self) -> (r: Vec<(NodeId, Location)>)
        ensures
            lists_nodes(r@, self@.nodes),
    {
        let mut out: Vec<(NodeId, Location)> = Vec::new();
        let walker = self.nodes.iter();
        let ghost walk = vstd::std_specs::iter::IteratorSpec::remaining(&walker);
        for entry in it: walker
            invariant
                it.seq() == walk,
                out@.len() == it.index(),
                forall|i: int|
                    #![trigger out@[i]]
                    0 <= i < it.index() ==> out@[i] == (NodeId(*walk[i].0), *walk[i].1),
        {
            out.push((NodeId(*entry.0), *entry.1));
        }
        proof {
            assert(out@.len() == walk.len());
            assert forall|i: int, j: int|
                #![trigger out@[i], out@[j]]
                0 <= i < j < out@.len() implies out@[i].0 != out@[j].0 by {
                assert(self.nodes@[*walk[i].0] == *walk[i].1);
                assert(self.nodes@[*walk[j].0] == *walk[j].1);
            }
            assert forall|n: u32| #[trigger] self@.nodes.contains_key(n) implies exists|i: int|
                0 <= i < out@.len() && (#[trigger] out@[i]).0.0 == n by {
                assert(self.nodes@.contains_key(n));
                let i = walk.index_of((&n, &self.nodes@[n]));
                assert(out@[i].0.0 == n);
            }
        }
        out
    }

    /// All edges, those of one node together and in the order of their insertion; the
    /// nodes come in no particular order.
    pub fn all_edges(&self) -> (r: Vec<Edge>)
        ensures
            exists|walk: Seq<u32>|
                {
                    &&& walk.no_duplicates()
                    &&& walk.to_set() == self@.edges.dom()
                    &&& r@ == #[trigger] edges_along(self@.edges, walk)
                },
    {
        let mut out: Vec<Edge> = Vec::new();
        let keys = small_keys(&self.adjacency);
        let ghost all = self@.edges;
        let mut k: usize = 0;
        assert(keys@.take(0) =~= Seq::<u32>::empty());
        while k < keys.len()
            invariant
                k <= keys@.len(),
                all == self@.edges,
                keys@.to_set() == self.adjacency@.dom(),
                out@ == edges_along(all, keys@.take(k as int)),
            decreases keys@.len() - k,
        {
            assert(keys@.to_set().contains(keys@[k as int]));
            match self.adjacency.get(&keys[k]) {
                Some(list) => {
                    let edges = list.as_slice();
                    let ghost before = out@;
                    let mut i: usize = 0;
                    while i < edges.len()
                        invariant
                            i <= edges@.len(),
                            out@ == before + edges@.take(i as int),
                        decreases edges@.len() - i,
                    {
                        out.push(edges[i]);
                        i = i + 1;
                        assert(out@ =~= before + edges@.take(i as int));
                    }
                    assert(edges@.take(i as int) =~= edges@);
                    assert(keys@.take(k + 1).drop_last() =~= keys@.take(k as int));
                },
                None => {},
            }
            k = k + 1;
        }
        proof {
            assert(keys@.take(k as int) =~= keys@);
            assert(self@.edges.dom() =~= self.adjacency@.dom());
        }
        out
    }

    /// The bounding box `(min_x, min_y, max_x, max_y)` of the nodes.
    pub fn bounds(&self) -> (r: Option<(i64, i64, i64, i64)>)
        ensures
            match r {
                Some((min_x, min_y, max_x, max_y)) => is_bounding_box(
                    self@.nodes,
                    min_x as int,
                    min_y as int,
                    max_x as int,
                    max_y as int,
                ),
                None => self@.nodes.dom().is_empty(),
            },
    {
        let locs = self.all_node_locations();
        if locs.len() == 0 {
            proof {
                assert forall|n: u32| !self@.nodes.dom().contains(n) by {
                    if self@.nodes.contains_key(n) {
                        let i = choose|i: int| 0 <= i < locs@.len() && (#[trigger] locs@[i]).0.0 == n;
                    }
                }
                assert(self@.nodes.dom() =~= Set::<u32>::empty());
            }
            return None;
        }
        let (min_x, min_y, max_x, max_y) = bounding_box(&locs);
        proof {
            let nodes = self@.nodes;
            assert forall|n: u32| #[trigger] nodes.contains_key(n) implies {
                &&& min_x <= nodes[n].x <= max_x
                &&& min_y <= nodes[n].y <= max_y
            } by {
                let i = choose|i: int| 0 <= i < locs@.len() && (#[trigger] locs@[i]).0.0 == n;
            }
            let a = choose|i: int| 0 <= i < locs@.len() && (#[trigger] locs@[i]).1.x == min_x;
            assert(nodes.contains_key(locs@[a].0.0));
            let b = choose|i: int| 0 <= i < locs@.len() && (#[trigger] locs@[i]).1.y == min_y;
            assert(nodes.contains_key(locs@[b].0.0));
            let c = choose|i: int| 0 <= i < locs@.len() && (#[trigger] locs@[i]).1.x == max_x;
            assert(nodes.contains_key(locs@[c].0.0));
            let d = choose|i: int| 0 <= i < locs@.len() && (#[trigger] locs@[i]).1.y == max_y;
            assert(nodes.contains_key(locs@[d].0.0));
        }
        Some((min_x, min_y, max_x, max_y))
    }
}

/// The edges of the nodes `walk`, one node after the other.
pub open spec fn edges_along(edges: Map<u32, Seq<Edge>>, walk: Seq<u32>) -> Seq<Edge>
    decreases walk.len(),
{
    if walk.len() == 0 {
        Seq::empty()
    } else {
        edges_along(edges, walk.drop_last()) + edges[walk.last()]
    }
}

/// Whether the four numbers are the least and the greatest coordinates of the nodes.
pub open spec fn is_bounding_box(
    nodes: Map<u32, Location>,
    min_x: int,
    min_y: int,
    max_x: int,
    max_y: int,
) -> bool {
    &&& forall|n: u32| #[trigger]
        nodes.contains_key(n) ==> {
            &&& min_x <= nodes[n].x <= max_x
            &&& min_y <= nodes[n].y <= max_y
        }
    &&& exists|n: u32| #[trigger] nodes.contains_key(n) && nodes[n].x == min_x
    &&& exists|n: u32| #[trigger] nodes.contains_key(n) && nodes[n].y == min_y
    &&& exists|n: u32| #[trigger] nodes.contains_key(n) && nodes[n].x == max_x
    &&& exists|n: u32| #[trigger] nodes.contains_key(n) && nodes[n].y == max_y
}

/// Whether the four numbers are the least and the greatest coordinates of the listed points.
pub open spec fn is_box_of(
    locs: Seq<(NodeId, Location)>,
    min_x: int,
    min_y: int,
    max_x: int,
    max_y: int,
) -> bool {
    &&& forall|i: int|
        0 <= i < locs.len() ==> {
            &&& min_x <= (#[trigger] locs[i]).1.x <= max_x
            &&& min_y <= locs[i].1.y <= max_y
        }
    &&& exists|i: int| 0 <= i < locs.len() && (#[trigger] locs[i]).1.x == min_x
    &&& exists|i: int| 0 <= i < locs.len() && (#[trigger] locs[i]).1.y == min_y
    &&& exists|i: int| 0 <= i < locs.len() && (#[trigger] locs[i]).1.x == max_x
    &&& exists|i: int| 0 <= i < locs.len() && (#[trigger] locs[i]).1.y == max_y
}

/// The bounding box `(min_x, min_y, max_x, max_y)` of a list of points.
pub fn bounding_box(locs: &Vec<(NodeId, Location)>) -> (r: (i64, i64, i64, i64))
    requires
        locs@.len() > 0,
    ensures
        is_box_of(locs@, r.0 as int, r.1 as int, r.2 as int, r.3 as int),
{
    let first = locs[0].1;
    let mut min_x: i64 = first.x;
    let mut min_y: i64 = first.y;
    let mut max_x: i64 = first.x;
    let mut max_y: i64 = first.y;
    let mut i: usize = 1;
    proof {
        assert(locs@.take(1)[0] == locs@[0]);
    }
    while i < locs.len()
        invariant
            1 <= i <= locs@.len(),
            is_box_of(locs@.take(i as int), min_x as int, min_y as int, max_x as int, max_y as int),
        decreases locs@.len() - i,
    {
        let loc = locs[i].1;
        let ghost before = locs@.take(i as int);
        let ghost after = locs@.take(i + 1);
        let ghost (a, b, c, d) = (
            choose|j: int| 0 <= j < before.len() && (#[trigger] before[j]).1.x == min_x,
            choose|j: int| 0 <= j < before.len() && (#[trigger] before[j]).1.y == min_y,
            choose|j: int| 0 <= j < before.len() && (#[trigger] before[j]).1.x == max_x,
            choose|j: int| 0 <= j < before.len() && (#[trigger] before[j]).1.y == max_y,
        );
        if loc.x < min_x {
            min_x = loc.x;
        }
        if loc.y < min_y {
            min_y = loc.y;
        }
        if loc.x > max_x {
            max_x = loc.x;
        }
        if loc.y > max_y {
            max_y = loc.y;
        }
        proof {
            assert(after[i as int] == locs@[i as int]);
            assert forall|j: int| 0 <= j < after.len() implies {
                &&& min_x <= (#[trigger] after[j]).1.x <= max_x
                &&& min_y <= after[j].1.y <= max_y
            } by {
                if j < i {
                    assert(after[j] == before[j]);
                }
            }
            assert(after[a] == before[a]);
            assert(after[b] == before[b]);
            assert(after[c] == before[c]);
            assert(after[d] == before[d]);
        }
        i = i + 1;
    }
    assert(locs@.take(i as int) =~= locs@);
    (min_x, min_y, max_x, max_y)
}

} // verus!
