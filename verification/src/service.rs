//! The site: a grid of lanes, and the charging stations at its corners.

use crate::domain::map::{
    bounding_box, costs_cover_distances, covers_distance, is_box_of, lists_nodes, RoadMapView,
    UNITS_PER_METRE,
};
use crate::domain::{Edge, Location, NodeId, RoadMap};
use crate::engine::matching::{joined, lemma_joined_routes};
use crate::engine::pathfinding::{is_drive, is_route, reachable};
use crate::simulator::{ends_placed, points_know_their_nodes};
use vstd::prelude::*;

verus! {

// ---------------------------------------------------------------- the grid
/// The number of the node in column `x` and row `y`.
pub open spec fn grid_number(cols: int, x: int, y: int) -> int {
    y * cols + x
}

/// The point of the node in column `x` and row `y`: one metre from its neighbours.
pub open spec fn grid_point(cols: int, x: int, y: int) -> Location {
    Location {
        x: (x * UNITS_PER_METRE) as i64,
        y: (y * UNITS_PER_METRE) as i64,
        node: Some(NodeId(grid_number(cols, x, y) as u32)),
    }
}

/// An edge between two nodes of the grid, one metre long.
pub open spec fn grid_edge(cols: int, x: int, y: int, x2: int, y2: int) -> Edge {
    Edge {
        from: NodeId(grid_number(cols, x, y) as u32),
        to: NodeId(grid_number(cols, x2, y2) as u32),
        cost: UNITS_PER_METRE as u64,
    }
}

/// The one edge, or none.
pub open spec fn edge_if(there: bool, edge: Edge) -> Seq<Edge> {
    if there {
        seq![edge]
    } else {
        Seq::empty()
    }
}

/// The edges that leave the node in column `x` and row `y`: to the left, up, to the right and
/// down, as far as there are such neighbours.
pub open spec fn grid_edges(cols: int, rows: int, x: int, y: int) -> Seq<Edge> {
    edge_if(x > 0, grid_edge(cols, x, y, x - 1, y)) + edge_if(
        y > 0,
        grid_edge(cols, x, y, x, y - 1),
    ) + edge_if(x + 1 < cols, grid_edge(cols, x, y, x + 1, y)) + edge_if(
        y + 1 < rows,
        grid_edge(cols, x, y, x, y + 1),
    )
}

/// Whether a network is the grid of `cols` columns and `rows` rows.
pub open spec fn is_grid(map: RoadMapView, cols: int, rows: int) -> bool {
    &&& forall|n: u32| #[trigger] map.nodes.contains_key(n) <==> n < cols * rows
    &&& forall|n: u32| #[trigger] map.edges.contains_key(n) ==> n < cols * rows
    &&& forall|x: int, y: int|
        0 <= x < cols && 0 <= y < rows ==> #[trigger] has_grid_node(map, cols, rows, x, y)
}

/// Whether a network has the node in column `x` and row `y` of the grid, with its edges.
pub open spec fn has_grid_node(map: RoadMapView, cols: int, rows: int, x: int, y: int) -> bool {
    let n = grid_number(cols, x, y) as u32;
    &&& map.nodes[n] == grid_point(cols, x, y)
    &&& map.out(n) == grid_edges(cols, rows, x, y)
}

/// Whether the number of nodes of a grid fits in 32 bits.
pub open spec fn grid_fits(cols: int, rows: int) -> bool {
    cols * rows <= u32::MAX
}

/// The number of a node is below the number of nodes, and tells its column and row.
proof fn lemma_grid_number(cols: int, rows: int, x: int, y: int)
    requires
        0 <= x < cols,
        0 <= y < rows,
        grid_fits(cols, rows),
    ensures
        0 <= grid_number(cols, x, y) < cols * rows <= u32::MAX,
        cols <= u32::MAX,
        rows <= u32::MAX,
        grid_number(cols, x, y) % cols == x,
        grid_number(cols, x, y) / cols == y,
{
    assert(y * cols + x < cols * rows) by (nonlinear_arith)
        requires
            0 <= x < cols,
            0 <= y < rows,
    ;
    assert(0 <= y * cols) by (nonlinear_arith)
        requires
            0 <= y,
            0 <= cols,
    ;
    assert(cols <= cols * rows && rows <= cols * rows) by (nonlinear_arith)
        requires
            1 <= cols,
            1 <= rows,
    ;
    vstd::arithmetic::div_mod::lemma_fundamental_div_mod_converse(y * cols + x, cols, y, x);
}

/// Different places have different numbers.
proof fn lemma_grid_numbers_differ(cols: int, rows: int, x: int, y: int, x2: int, y2: int)
    requires
        0 <= x < cols,
        0 <= y < rows,
        grid_fits(cols, rows),
        0 <= x2 < cols,
        0 <= y2 < rows,
    ensures
        grid_number(cols, x, y) == grid_number(cols, x2, y2) <==> x == x2 && y == y2,
        (grid_number(cols, x, y) as u32 == grid_number(cols, x2, y2) as u32) <==> x == x2 && y
            == y2,
{
    lemma_grid_number(cols, rows, x, y);
    lemma_grid_number(cols, rows, x2, y2);
}

/// Whether the visit of column `a` and row `b` comes before the one of column `x` and row `y`.
spec fn visited(a: int, b: int, x: int, y: int) -> bool {
    a < x || (a == x && b < y)
}

/// The edges that leave the node in column `a` and row `b` before the visit of column `x` and
/// row `y`.
spec fn edges_before(cols: int, rows: int, x: int, y: int, a: int, b: int) -> Seq<Edge> {
    edge_if(a > 0 && visited(a - 1, b, x, y), grid_edge(cols, a, b, a - 1, b)) + edge_if(
        b > 0 && visited(a, b - 1, x, y),
        grid_edge(cols, a, b, a, b - 1),
    ) + edge_if(
        a + 1 < cols && visited(a, b, x, y),
        grid_edge(cols, a, b, a + 1, b),
    ) + edge_if(b + 1 < rows && visited(a, b, x, y), grid_edge(cols, a, b, a, b + 1))
}

/// The network before the visit of column `x` and row `y`.
spec fn grid_before(map: RoadMapView, cols: int, rows: int, x: int, y: int) -> bool {
    &&& forall|n: u32| #[trigger] map.nodes.contains_key(n) ==> n < cols * rows
    &&& forall|n: u32| #[trigger] map.edges.contains_key(n) ==> n < cols * rows
    &&& forall|a: int, b: int|
        0 <= a < cols && 0 <= b < rows ==> #[trigger] node_before(map, cols, rows, x, y, a, b)
    &&& map.wf()
}

/// The node in column `a` and row `b` before the visit of column `x` and row `y`.
spec fn node_before(
    map: RoadMapView,
    cols: int,
    rows: int,
    x: int,
    y: int,
    a: int,
    b: int,
) -> bool {
    let n = grid_number(cols, a, b) as u32;
    &&& visited(a, b, x, y) ==> map.nodes.contains_key(n) && map.nodes[n] == grid_point(cols, a, b)
    &&& map.out(n) == edges_before(cols, rows, x, y, a, b)
}

/// The edges of a network after one more edge.
proof fn lemma_out_with_edge(map: RoadMapView, e: Edge, n: u32)
    ensures
        map.with_edge(e).out(n) == (if n == e.from.0 {
            map.out(n).push(e)
        } else {
            map.out(n)
        }),
{
}

/// Adds edges in both directions between two nodes.
fn add_lane(map: &mut RoadMap, a: NodeId, b: NodeId)
    requires
        old(map)@.wf(),
    ensures
        final(map)@ == old(map)@.with_edge(
            Edge { from: a, to: b, cost: UNITS_PER_METRE as u64 },
        ).with_edge(Edge { from: b, to: a, cost: UNITS_PER_METRE as u64 }),
        final(map)@.wf(),
{
    map.add_edge(Edge { from: a, to: b, cost: 65_536 });
    map.add_edge(Edge { from: b, to: a, cost: 65_536 });
}

/// The edges that leave a node after the visit of column `x` and row `y`.
spec fn edges_after_visit(
    v: RoadMapView,
    cols: int,
    rows: int,
    x: int,
    y: int,
    a: int,
    b: int,
) -> Seq<Edge> {
    let n = grid_number(cols, a, b) as u32;
    v.out(n) + edge_if(a == x && b == y && x + 1 < cols, grid_edge(cols, x, y, x + 1, y))
        + edge_if(a == x + 1 && b == y, grid_edge(cols, x + 1, y, x, y)) + edge_if(
        a == x && b == y && y + 1 < rows,
        grid_edge(cols, x, y, x, y + 1),
    ) + edge_if(a == x && b == y + 1, grid_edge(cols, x, y + 1, x, y))
}

/// A visit adds what is missing.
proof fn lemma_visit_adds(
    v: RoadMapView,
    cols: int,
    rows: int,
    x: int,
    y: int,
    a: int,
    b: int,
)
    requires
        v.out(grid_number(cols, a, b) as u32) == edges_before(cols, rows, x, y, a, b),
        0 <= x < cols,
        0 <= y < rows,
        0 <= a < cols,
        0 <= b < rows,
    ensures
        edges_after_visit(v, cols, rows, x, y, a, b) == edges_before(
            cols,
            rows,
            x,
            y + 1,
            a,
            b,
        ),
{
    assert(edges_after_visit(v, cols, rows, x, y, a, b) =~= edges_before(
        cols,
        rows,
        x,
        y + 1,
        a,
        b,
    ));
}

/// A lane adds an edge to each of its ends.
proof fn lemma_lane(
    v: RoadMapView,
    cols: int,
    rows: int,
    x: int,
    y: int,
    x2: int,
    y2: int,
    a: int,
    b: int,
)
    requires
        0 <= x < cols,
        0 <= y < rows,
        grid_fits(cols, rows),
        0 <= x2 < cols,
        0 <= y2 < rows,
        0 <= a < cols,
        0 <= b < rows,
        x != x2 || y != y2,
    ensures
        ({
            let e = grid_edge(cols, x, y, x2, y2);
            let f = grid_edge(cols, x2, y2, x, y);
            let n = grid_number(cols, a, b) as u32;
            v.with_edge(e).with_edge(f).out(n) == v.out(n) + edge_if(a == x && b == y, e)
                + edge_if(a == x2 && b == y2, f)
        }),
{
    let e = grid_edge(cols, x, y, x2, y2);
    let f = grid_edge(cols, x2, y2, x, y);
    let n = grid_number(cols, a, b) as u32;
    lemma_grid_numbers_differ(cols, rows, x, y, a, b);
    lemma_grid_numbers_differ(cols, rows, x2, y2, a, b);
    lemma_out_with_edge(v, e, n);
    lemma_out_with_edge(v.with_edge(e), f, n);
    assert(v.with_edge(e).with_edge(f).out(n) =~= v.out(n) + edge_if(a == x && b == y, e)
        + edge_if(a == x2 && b == y2, f));
}

/// Adds the node in column `x` and row `y`, and the lanes from it to the right and down.
fn visit(map: &mut RoadMap, cols: u32, rows: u32, x: u32, y: u32)
    requires
        x < cols,
        y < rows,
        grid_fits(cols as int, rows as int),
        grid_before(old(map)@, cols as int, rows as int, x as int, y as int),
    ensures
        grid_before(final(map)@, cols as int, rows as int, x as int, y + 1),
{
    let ghost (c, r, gx, gy) = (cols as int, rows as int, x as int, y as int);
    proof {
        lemma_grid_number(c, r, gx, gy);
        if x + 1 < cols {
            lemma_grid_number(c, r, gx + 1, gy);
        }
        if y + 1 < rows {
            lemma_grid_number(c, r, gx, gy + 1);
        }
        assert(y * cols + x == grid_number(c, gx, gy));
        assert(0 <= y * cols) by (nonlinear_arith);
    }
    let node = NodeId(y * cols + x);
    let ghost v0 = map@;
    map.add_node(node, Location::at_node(node, x as i64 * 65_536, y as i64 * 65_536));
    let ghost v1 = map@;
    if x + 1 < cols {
        add_lane(map, node, NodeId(y * cols + x + 1));
    }
    let ghost v2 = map@;
    if y + 1 < rows {
        assert((y + 1) * cols + x == grid_number(c, gx, gy + 1));
        assert(0 <= (y + 1) * cols) by (nonlinear_arith);
        add_lane(map, node, NodeId((y + 1) * cols + x));
    }
    proof {
        assert(v1.edges == v0.edges);
        assert forall|a: int, b: int| 0 <= a < c && 0 <= b < r implies #[trigger] node_before(
            map@,
            c,
            r,
            gx,
            gy + 1,
            a,
            b,
        ) by {
            let n = grid_number(c, a, b) as u32;
            assert(node_before(v0, c, r, gx, gy, a, b));
            lemma_grid_numbers_differ(c, r, gx, gy, a, b);
            assert(v1.out(n) == v0.out(n));
            lemma_visit_adds(v0, c, r, gx, gy, a, b);
            if x + 1 < cols {
                lemma_lane(v1, c, r, gx, gy, gx + 1, gy, a, b);
            }
            if y + 1 < rows {
                lemma_lane(v2, c, r, gx, gy, gx, gy + 1, a, b);
            }
            assert(map@.out(n) =~= edges_after_visit(v0, c, r, gx, gy, a, b));
        }
    }
}

/// Builds the grid of `cols` columns and `rows` rows. Neighbours are joined in both
/// directions, and are one metre apart.
pub fn build_grid_map(cols: u32, rows: u32) -> (map: RoadMap)
    requires
        grid_fits(cols as int, rows as int),
    ensures
        is_grid(map@, cols as int, rows as int),
        map@.wf(),
{
    let ghost (c, r) = (cols as int, rows as int);
    let mut map = RoadMap::new();
    proof {
        assert forall|a: int, b: int| 0 <= a < c && 0 <= b < r implies #[trigger] node_before(
            map@,
            c,
            r,
            0,
            0,
            a,
            b,
        ) by {
            assert(map@.out(grid_number(c, a, b) as u32) =~= edges_before(c, r, 0, 0, a, b));
        }
    }
    let mut x: u32 = 0;
    while x < cols
        invariant
            x <= cols,
            c == cols,
            r == rows,
            grid_fits(c, r),
            grid_before(map@, c, r, x as int, 0),
        decreases cols - x,
    {
        let mut y: u32 = 0;
        while y < rows
            invariant
                x < cols,
                y <= rows,
                c == cols,
                r == rows,
                grid_fits(c, r),
                grid_before(map@, c, r, x as int, y as int),
            decreases rows - y,
        {
            visit(&mut map, cols, rows, x, y);
            y = y + 1;
        }
        proof {
            assert forall|a: int, b: int| 0 <= a < c && 0 <= b < r implies #[trigger] node_before(
                map@,
                c,
                r,
                x + 1,
                0,
                a,
                b,
            ) by {
                assert(node_before(map@, c, r, x as int, r, a, b));
                assert(edges_before(c, r, x + 1, 0, a, b) =~= edges_before(
                    c,
                    r,
                    x as int,
                    r,
                    a,
                    b,
                ));
            }
        }
        x = x + 1;
    }
    proof {
        assert forall|n: u32| n < c * r implies #[trigger] map@.nodes.contains_key(n) by {
            let (a, b) = lemma_grid_place(c, r, n as int);
            assert(node_before(map@, c, r, c, 0, a, b));
            assert(visited(a, b, c, 0));
        }
        assert forall|a: int, b: int| 0 <= a < c && 0 <= b < r implies #[trigger] has_grid_node(
            map@,
            c,
            r,
            a,
            b,
        ) by {
            assert(node_before(map@, c, r, c, 0, a, b));
            assert(visited(a, b, c, 0));
            assert(edges_before(c, r, c, 0, a, b) =~= grid_edges(c, r, a, b));
        }
    }
    map
}

// ---------------------------------------------------------------- the chargers
/// How far a node may be from a corner of the site to count as that corner, in fixed-point
/// units (a hundredth of a metre).
pub const CORNER_TOLERANCE: i64 = 655;

/// Whether a point is at `(x, y)`, within the tolerance.
pub open spec fn is_at(l: Location, x: int, y: int) -> bool {
    &&& -CORNER_TOLERANCE <= l.x - x <= CORNER_TOLERANCE
    &&& -CORNER_TOLERANCE <= l.y - y <= CORNER_TOLERANCE
}

/// The first of the first `n` listed nodes that is at `(x, y)`.
pub open spec fn first_at(locs: Seq<(NodeId, Location)>, x: int, y: int, n: nat) -> Option<NodeId>
    decreases n,
{
    if n == 0 {
        None
    } else {
        match first_at(locs, x, y, (n - 1) as nat) {
            Some(id) => Some(id),
            None => if is_at(locs[n - 1].1, x, y) {
                Some(locs[n - 1].0)
            } else {
                None
            },
        }
    }
}

/// A list of nodes with one more, unless there is none or it is listed already.
pub open spec fn with_corner(out: Seq<NodeId>, corner: Option<NodeId>) -> Seq<NodeId> {
    match corner {
        Some(id) => if out.contains(id) {
            out
        } else {
            out.push(id)
        },
        None => out,
    }
}

/// The nodes at the corners of a box, as far as there are such nodes.
pub open spec fn corners_of(
    locs: Seq<(NodeId, Location)>,
    min_x: int,
    min_y: int,
    max_x: int,
    max_y: int,
) -> Seq<NodeId> {
    let n = locs.len();
    let a = with_corner(Seq::empty(), first_at(locs, min_x, min_y, n));
    let b = with_corner(a, first_at(locs, max_x, min_y, n));
    let c = with_corner(b, first_at(locs, min_x, max_y, n));
    with_corner(c, first_at(locs, max_x, max_y, n))
}

/// Whether `chargers` are the nodes at the corners of the box around the listed nodes.
pub open spec fn are_corners(locs: Seq<(NodeId, Location)>, chargers: Seq<NodeId>) -> bool {
    if locs.len() == 0 {
        chargers == Seq::<NodeId>::empty()
    } else {
        exists|min_x: int, min_y: int, max_x: int, max_y: int| #[trigger]
            is_box_of(locs, min_x, min_y, max_x, max_y) && chargers == corners_of(
                locs,
                min_x,
                min_y,
                max_x,
                max_y,
            )
    }
}

/// Finds the first listed node at `(x, y)`.
fn find_at(locs: &Vec<(NodeId, Location)>, x: i64, y: i64) -> (r: Option<NodeId>)
    ensures
        r == first_at(locs@, x as int, y as int, locs@.len()),
{
    let mut found: Option<NodeId> = None;
    let mut i: usize = 0;
    while i < locs.len()
        invariant
            i <= locs@.len(),
            found == first_at(locs@, x as int, y as int, i as nat),
        decreases locs@.len() - i,
    {
        if found.is_none() {
            let l = locs[i].1;
            let dx: i128 = l.x as i128 - x as i128;
            let dy: i128 = l.y as i128 - y as i128;
            let tolerance: i128 = CORNER_TOLERANCE as i128;
            if -tolerance <= dx && dx <= tolerance && -tolerance <= dy && dy <= tolerance {
                found = Some(locs[i].0);
            }
        }
        i = i + 1;
    }
    found
}

/// Adds a node to a list, unless it is there already.
fn add_corner(out: &mut Vec<NodeId>, corner: Option<NodeId>)
    ensures
        final(out)@ == with_corner(old(out)@, corner),
{
    if let Some(id) = corner {
        let mut i: usize = 0;
        let mut known = false;
        while i < out.len()
            invariant
                i <= out@.len(),
                out@ == old(out)@,
                known == exists|j: int| 0 <= j < i && #[trigger] out@[j] == id,
            decreases out@.len() - i,
        {
            if out[i] == id {
                known = true;
            }
            i = i + 1;
        }
        if !known {
            out.push(id);
        }
    }
}

/// The nodes at the corners of the box around the listed nodes.
pub fn corner_nodes(locs: &Vec<(NodeId, Location)>) -> (r: Vec<NodeId>)
    ensures
        are_corners(locs@, r@),
{
    let mut out: Vec<NodeId> = Vec::new();
    if locs.len() == 0 {
        return out;
    }
    let (min_x, min_y, max_x, max_y) = bounding_box(locs);
    add_corner(&mut out, find_at(locs, min_x, min_y));
    add_corner(&mut out, find_at(locs, max_x, min_y));
    add_corner(&mut out, find_at(locs, min_x, max_y));
    add_corner(&mut out, find_at(locs, max_x, max_y));
    assert(is_box_of(locs@, min_x as int, min_y as int, max_x as int, max_y as int));
    out
}

/// The nodes with a charging station: those at the corners of the site.
pub fn charger_nodes(map: &RoadMap) -> (r: Vec<NodeId>)
    ensures
        exists|locs: Seq<(NodeId, Location)>| #[trigger]
            lists_nodes(locs, map@.nodes) && are_corners(locs, r@),
{
    let locs = map.all_node_locations();
    corner_nodes(&locs)
}

// ---------------------------------------------------------------- laws
/// A node that is found at a point is listed, and is there.
proof fn lemma_first_at(locs: Seq<(NodeId, Location)>, x: int, y: int, n: nat)
    requires
        n <= locs.len(),
    ensures
        first_at(locs, x, y, n) matches Some(id) ==> exists|i: int|
            0 <= i < n && (#[trigger] locs[i]).0 == id && is_at(locs[i].1, x, y),
        first_at(locs, x, y, n) is None ==> forall|i: int|
            0 <= i < n ==> !is_at((#[trigger] locs[i]).1, x, y),
    decreases n,
{
    if n > 0 {
        lemma_first_at(locs, x, y, (n - 1) as nat);
        if first_at(locs, x, y, (n - 1) as nat) is None && is_at(locs[n - 1].1, x, y) {
            assert(locs[n - 1].0 == first_at(locs, x, y, n)->0);
        }
    }
}

/// On a grid the only node at a place is the one of that column and row.
proof fn lemma_grid_first_at(
    map: RoadMapView,
    cols: int,
    rows: int,
    locs: Seq<(NodeId, Location)>,
    x: int,
    y: int,
)
    requires
        is_grid(map, cols, rows),
        0 <= x < cols,
        0 <= y < rows,
        grid_fits(cols, rows),
        lists_nodes(locs, map.nodes),
    ensures
        first_at(locs, x * UNITS_PER_METRE, y * UNITS_PER_METRE, locs.len()) == Some(
            NodeId(grid_number(cols, x, y) as u32),
        ),
{
    let n = grid_number(cols, x, y) as u32;
    lemma_grid_number(cols, rows, x, y);
    lemma_first_at(locs, x * UNITS_PER_METRE, y * UNITS_PER_METRE, locs.len());
    assert(map.nodes.contains_key(n));
    assert(has_grid_node(map, cols, rows, x, y));
    let i = choose|i: int| 0 <= i < locs.len() && (#[trigger] locs[i]).0.0 == n;
    assert(locs[i].1 == grid_point(cols, x, y));
    let found = first_at(locs, x * UNITS_PER_METRE, y * UNITS_PER_METRE, locs.len());
    assert(found is Some);
    let j = choose|j: int|
        0 <= j < locs.len() && (#[trigger] locs[j]).0 == found->0 && is_at(
            locs[j].1,
            x * UNITS_PER_METRE,
            y * UNITS_PER_METRE,
        );
    let m = locs[j].0.0;
    assert(map.nodes.contains_key(m));
    let (a, b) = lemma_grid_place(cols, rows, m as int);
    assert(has_grid_node(map, cols, rows, a, b));
    assert(locs[j].1 == grid_point(cols, a, b));
}

/// Every number below the number of nodes is the number of some column and row.
proof fn lemma_grid_place(cols: int, rows: int, n: int) -> (place: (int, int))
    requires
        0 <= n < cols * rows,
        0 <= cols,
        0 <= rows,
    ensures
        0 <= place.0 < cols,
        0 <= place.1 < rows,
        grid_number(cols, place.0, place.1) == n,
{
    assert(cols > 0) by (nonlinear_arith)
        requires
            0 <= n < cols * rows,
            cols >= 0,
            rows >= 0,
    ;
    let a = n % cols;
    let b = n / cols;
    vstd::arithmetic::div_mod::lemma_fundamental_div_mod(n, cols);
    assert(cols * b == b * cols) by (nonlinear_arith);
    assert(0 <= b < rows) by (nonlinear_arith)
        requires
            n == cols * b + a,
            0 <= a < cols,
            0 <= n < cols * rows,
    ;
    (a, b)
}

/// On a grid with at least two columns and two rows the charging stations are the four corner
/// nodes.
pub proof fn law_a_grid_has_four_chargers(
    map: RoadMapView,
    cols: int,
    rows: int,
    locs: Seq<(NodeId, Location)>,
    chargers: Seq<NodeId>,
)
    requires
        is_grid(map, cols, rows),
        2 <= cols,
        2 <= rows,
        grid_fits(cols, rows),
        lists_nodes(locs, map.nodes),
        are_corners(locs, chargers),
    ensures
        chargers == seq![
            NodeId(grid_number(cols, 0, 0) as u32),
            NodeId(grid_number(cols, cols - 1, 0) as u32),
            NodeId(grid_number(cols, 0, rows - 1) as u32),
            NodeId(grid_number(cols, cols - 1, rows - 1) as u32),
        ],
{
    let (w, h) = ((cols - 1) * UNITS_PER_METRE, (rows - 1) * UNITS_PER_METRE);
    lemma_grid_listed(map, cols, rows, locs, 0, 0);
    lemma_grid_listed(map, cols, rows, locs, cols - 1, rows - 1);
    assert(locs.len() > 0);
    let (min_x, min_y, max_x, max_y) = choose|a: int, b: int, c: int, d: int| #[trigger]
        is_box_of(locs, a, b, c, d) && chargers == corners_of(locs, a, b, c, d);
    assert forall|i: int| 0 <= i < locs.len() implies 0 <= (#[trigger] locs[i]).1.x <= w && 0
        <= locs[i].1.y <= h by {
        let n = locs[i].0.0;
        assert(map.nodes.contains_key(n));
        let (a, b) = lemma_grid_place(cols, rows, n as int);
        assert(has_grid_node(map, cols, rows, a, b));
    }
    assert(min_x == 0 && min_y == 0 && max_x == w && max_y == h);
    lemma_grid_first_at(map, cols, rows, locs, 0, 0);
    lemma_grid_first_at(map, cols, rows, locs, cols - 1, 0);
    lemma_grid_first_at(map, cols, rows, locs, 0, rows - 1);
    lemma_grid_first_at(map, cols, rows, locs, cols - 1, rows - 1);
    lemma_grid_numbers_differ(cols, rows, 0, 0, cols - 1, 0);
    lemma_grid_numbers_differ(cols, rows, 0, 0, 0, rows - 1);
    lemma_grid_numbers_differ(cols, rows, 0, 0, cols - 1, rows - 1);
    lemma_grid_numbers_differ(cols, rows, cols - 1, 0, 0, rows - 1);
    lemma_grid_numbers_differ(cols, rows, cols - 1, 0, cols - 1, rows - 1);
    lemma_grid_numbers_differ(cols, rows, 0, rows - 1, cols - 1, rows - 1);
    let a = NodeId(grid_number(cols, 0, 0) as u32);
    let b = NodeId(grid_number(cols, cols - 1, 0) as u32);
    let c = NodeId(grid_number(cols, 0, rows - 1) as u32);
    let d = NodeId(grid_number(cols, cols - 1, rows - 1) as u32);
    assert(Seq::<NodeId>::empty().push(a) =~= seq![a]);
    assert(seq![a].push(b) =~= seq![a, b]);
    assert(seq![a, b].push(c) =~= seq![a, b, c]);
    assert(seq![a, b, c].push(d) =~= seq![a, b, c, d]);
    assert(!seq![a].contains(b));
    assert(!seq![a, b].contains(c));
    assert(!seq![a, b, c].contains(d));
}

/// Every node of a grid is listed with its point.
proof fn lemma_grid_listed(
    map: RoadMapView,
    cols: int,
    rows: int,
    locs: Seq<(NodeId, Location)>,
    x: int,
    y: int,
) -> (i: int)
    requires
        is_grid(map, cols, rows),
        0 <= x < cols,
        0 <= y < rows,
        grid_fits(cols, rows),
        lists_nodes(locs, map.nodes),
    ensures
        0 <= i < locs.len(),
        locs[i].1.x == x * UNITS_PER_METRE,
        locs[i].1.y == y * UNITS_PER_METRE,
{
    let n = grid_number(cols, x, y) as u32;
    lemma_grid_number(cols, rows, x, y);
    assert(map.nodes.contains_key(n));
    assert(has_grid_node(map, cols, rows, x, y));
    let i = choose|i: int| 0 <= i < locs.len() && (#[trigger] locs[i]).0.0 == n;
    assert(locs[i].1 == grid_point(cols, x, y));
    i
}

/// Whether `(x2, y2)` is a place of the grid next to `(x, y)`.
spec fn next_to(cols: int, rows: int, x: int, y: int, x2: int, y2: int) -> bool {
    &&& 0 <= x2 < cols
    &&& 0 <= y2 < rows
    &&& (x2 == x && (y2 == y - 1 || y2 == y + 1)) || (y2 == y && (x2 == x - 1 || x2 == x + 1))
}

/// The edges of a node lead to the places next to it.
proof fn lemma_grid_neighbour(cols: int, rows: int, x: int, y: int, i: int) -> (place: (int, int))
    requires
        0 <= x < cols,
        0 <= y < rows,
        0 <= i < grid_edges(cols, rows, x, y).len(),
    ensures
        next_to(cols, rows, x, y, place.0, place.1),
        grid_edges(cols, rows, x, y)[i] == grid_edge(cols, x, y, place.0, place.1),
{
    let l = if x > 0 {
        1int
    } else {
        0
    };
    let u = if y > 0 {
        l + 1
    } else {
        l
    };
    let r = if x + 1 < cols {
        u + 1
    } else {
        u
    };
    if i < l {
        (x - 1, y)
    } else if i < u {
        (x, y - 1)
    } else if i < r {
        (x + 1, y)
    } else {
        (x, y + 1)
    }
}

/// No edge of a grid is cheaper than the distance that it covers, so on a grid the distance to
/// the goal guides the search for a route.
pub proof fn law_grid_costs_cover_distances(map: RoadMapView, cols: int, rows: int)
    requires
        is_grid(map, cols, rows),
        0 <= cols,
        0 <= rows,
        grid_fits(cols, rows),
    ensures
        costs_cover_distances(map),
{
    assert forall|n: u32, i: int|
        #![trigger map.edges[n][i]]
        map.edges.contains_key(n) && 0 <= i < map.edges[n].len() implies {
        let e = map.edges[n][i];
        covers_distance(map, n, e)
    } by {
        let e = map.edges[n][i];
        let (x, y) = lemma_grid_place(cols, rows, n as int);
        assert(has_grid_node(map, cols, rows, x, y));
        assert(map.edges[n] == map.out(n));
        let (x2, y2) = lemma_grid_neighbour(cols, rows, x, y, i);
        lemma_grid_number(cols, rows, x2, y2);
        assert(has_grid_node(map, cols, rows, x2, y2));
        let a = map.nodes[n];
        let b = map.nodes[e.to.0];
        assert(a.x - b.x == (x - x2) * UNITS_PER_METRE);
        assert(a.y - b.y == (y - y2) * UNITS_PER_METRE);
        let dx = a.x - b.x;
        let dy = a.y - b.y;
        assert((dx == 0 && (dy == UNITS_PER_METRE || dy == -UNITS_PER_METRE)) || (dy == 0 && (dx
            == UNITS_PER_METRE || dx == -UNITS_PER_METRE)));
        assert(dx * dx + dy * dy == 65_536 * 65_536) by (nonlinear_arith)
            requires
                (dx == 0 && (dy == 65_536 || dy == -65_536)) || (dy == 0 && (dx == 65_536 || dx
                    == -65_536)),
        ;
    }
}

/// Every edge of a grid joins two points, and every point knows its node, as robots need it to
/// drive without jumps.
pub proof fn law_a_grid_can_be_driven(map: RoadMapView, cols: int, rows: int)
    requires
        is_grid(map, cols, rows),
        0 <= cols,
        0 <= rows,
        grid_fits(cols, rows),
    ensures
        ends_placed(map),
        points_know_their_nodes(map),
{
    law_grid_costs_cover_distances(map, cols, rows);
    assert forall|n: u32, i: int|
        #![trigger map.edges[n][i]]
        map.edges.contains_key(n) && 0 <= i < map.edges[n].len() implies map.nodes.contains_key(n)
        && map.nodes.contains_key(map.edges[n][i].to.0) by {
        assert(covers_distance(map, n, map.edges[n][i]));
    }
    assert forall|n: u32| #[trigger] map.nodes.contains_key(n) implies map.nodes[n].node == Some(
        NodeId(n),
    ) by {
        let (x, y) = lemma_grid_place(cols, rows, n as int);
        assert(has_grid_node(map, cols, rows, x, y));
    }
}

/// There are `n` numbers below `n`.
proof fn lemma_numbers_below(n: nat)
    requires
        n <= u32::MAX,
    ensures
        Set::new(|k: u32| k < n).finite(),
        Set::new(|k: u32| k < n).len() == n,
    decreases n,
{
    let all = Set::new(|k: u32| k < n);
    if n == 0 {
        assert(all =~= Set::empty());
    } else {
        let m = (n - 1) as nat;
        lemma_numbers_below(m);
        assert(all =~= Set::new(|k: u32| k < m).insert(m as u32));
    }
}

/// A grid has as many nodes as columns times rows.
pub proof fn law_a_grid_has_all_its_nodes(map: RoadMapView, cols: int, rows: int)
    requires
        is_grid(map, cols, rows),
        0 <= cols,
        0 <= rows,
        grid_fits(cols, rows),
    ensures
        map.nodes.len() == cols * rows,
{
    assert(0 <= cols * rows) by (nonlinear_arith)
        requires
            0 <= cols,
            0 <= rows,
    ;
    let n = (cols * rows) as nat;
    lemma_numbers_below(n);
    assert(map.nodes.dom() =~= Set::new(|k: u32| k < n));
}

/// Neighbours reach each other.
proof fn lemma_reaches_neighbour(
    map: RoadMapView,
    cols: int,
    rows: int,
    x: int,
    y: int,
    x2: int,
    y2: int,
)
    requires
        is_grid(map, cols, rows),
        0 <= x < cols,
        0 <= y < rows,
        grid_fits(cols, rows),
        next_to(cols, rows, x, y, x2, y2),
    ensures
        reachable(
            map,
            NodeId(grid_number(cols, x, y) as u32),
            NodeId(grid_number(cols, x2, y2) as u32),
        ),
{
    let a = NodeId(grid_number(cols, x, y) as u32);
    let b = NodeId(grid_number(cols, x2, y2) as u32);
    let e = grid_edge(cols, x, y, x2, y2);
    assert(has_grid_node(map, cols, rows, x, y));
    let out = grid_edges(cols, rows, x, y);
    let l = if x > 0 {
        1int
    } else {
        0
    };
    let u = if y > 0 {
        l + 1
    } else {
        l
    };
    let r = if x + 1 < cols {
        u + 1
    } else {
        u
    };
    let i = if x2 == x - 1 {
        0
    } else if y2 == y - 1 {
        l
    } else if x2 == x + 1 {
        u
    } else {
        r
    };
    assert(out[i] == e);
    assert(map.out(a.0).contains(e));
    let nodes = seq![a, b];
    let edges = seq![e];
    assert(is_drive(map, nodes, edges, a, b));
    assert(is_route(map, nodes, a, b));
}

/// Who reaches a node reaches what that node reaches.
proof fn lemma_reaches_on(map: RoadMapView, a: NodeId, b: NodeId, c: NodeId)
    requires
        reachable(map, a, b),
        reachable(map, b, c),
    ensures
        reachable(map, a, c),
{
    let first = choose|nodes: Seq<NodeId>| is_route(map, nodes, a, b);
    let second = choose|nodes: Seq<NodeId>| is_route(map, nodes, b, c);
    lemma_joined_routes(map, first, second, a, b, c);
    assert(is_route(map, joined(first, second), a, c));
}

/// On a grid every place can be reached from every other.
pub proof fn law_a_grid_is_connected(
    map: RoadMapView,
    cols: int,
    rows: int,
    x: int,
    y: int,
    x2: int,
    y2: int,
)
    requires
        is_grid(map, cols, rows),
        0 <= x < cols,
        0 <= y < rows,
        grid_fits(cols, rows),
        0 <= x2 < cols,
        0 <= y2 < rows,
    ensures
        reachable(
            map,
            NodeId(grid_number(cols, x, y) as u32),
            NodeId(grid_number(cols, x2, y2) as u32),
        ),
    decreases
            (if x < x2 {
                x2 - x
            } else {
                x - x2
            }) + (if y < y2 {
                y2 - y
            } else {
                y - y2
            }),
{
    let a = NodeId(grid_number(cols, x, y) as u32);
    let c = NodeId(grid_number(cols, x2, y2) as u32);
    if x == x2 && y == y2 {
        let nodes = seq![a];
        let edges = Seq::<Edge>::empty();
        assert(is_drive(map, nodes, edges, a, a));
        assert(is_route(map, nodes, a, a));
    } else {
        let (nx, ny) = if x < x2 {
            (x + 1, y)
        } else if x > x2 {
            (x - 1, y)
        } else if y < y2 {
            (x, y + 1)
        } else {
            (x, y - 1)
        };
        let b = NodeId(grid_number(cols, nx, ny) as u32);
        lemma_reaches_neighbour(map, cols, rows, x, y, nx, ny);
        law_a_grid_is_connected(map, cols, rows, nx, ny, x2, y2);
        lemma_reaches_on(map, a, b, c);
    }
}

/// The node of a number stands in the column and the row that the number gives, one metre (or
/// 65536 units) from column to column and from row to row, and knows its number.
pub proof fn law_a_grid_has_its_nodes_in_rows(map: RoadMapView, cols: int, rows: int, n: u32)
    requires
        is_grid(map, cols, rows),
        0 < cols,
        0 < rows,
        grid_fits(cols, rows),
    ensures
        map.nodes.contains_key(n) <==> n < cols * rows,
        n < cols * rows ==> {
            &&& map.nodes[n].x == (n as int % cols) * 65_536
            &&& map.nodes[n].y == (n as int / cols) * 65_536
            &&& map.nodes[n].node == Some(NodeId(n))
        },
{
    if n < cols * rows {
        let (x, y) = lemma_grid_place(cols, rows, n as int);
        lemma_grid_number(cols, rows, x, y);
        assert(has_grid_node(map, cols, rows, x, y));
    }
}

/// Whether two nodes of a grid stand side by side or one above the other.
pub open spec fn are_neighbours(cols: int, n: u32, m: u32) -> bool {
    let (x, y) = (n as int % cols, n as int / cols);
    let (x2, y2) = (m as int % cols, m as int / cols);
    ||| y == y2 && (x - x2 == 1 || x2 - x == 1)
    ||| x == x2 && (y - y2 == 1 || y2 - y == 1)
}

/// Every edge of a grid leads from its node to a neighbour, and costs one metre.
pub proof fn law_grid_edges_lead_to_neighbours(
    map: RoadMapView,
    cols: int,
    rows: int,
    n: u32,
    i: int,
)
    requires
        is_grid(map, cols, rows),
        0 < cols,
        0 < rows,
        grid_fits(cols, rows),
        map.edges.contains_key(n),
        0 <= i < map.edges[n].len(),
    ensures
        map.edges[n][i].from == NodeId(n),
        map.edges[n][i].cost == 65_536,
        n < cols * rows,
        map.edges[n][i].to.0 < cols * rows,
        are_neighbours(cols, n, map.edges[n][i].to.0),
{
    let (x, y) = lemma_grid_place(cols, rows, n as int);
    lemma_grid_number(cols, rows, x, y);
    assert(has_grid_node(map, cols, rows, x, y));
    assert(map.edges[n] == map.out(n));
    let (x2, y2) = lemma_grid_neighbour(cols, rows, x, y, i);
    lemma_grid_number(cols, rows, x2, y2);
}

/// Neighbours of a grid are joined in both directions, by one edge each way.
pub proof fn law_grid_neighbours_are_joined(
    map: RoadMapView,
    cols: int,
    rows: int,
    n: u32,
    m: u32,
) -> (i: int)
    requires
        is_grid(map, cols, rows),
        0 < cols,
        0 < rows,
        grid_fits(cols, rows),
        n < cols * rows,
        m < cols * rows,
        are_neighbours(cols, n, m),
    ensures
        map.edges.contains_key(n),
        0 <= i < map.edges[n].len(),
        map.edges[n][i].to == NodeId(m),
        forall|j: int|
            0 <= j < map.edges[n].len() && j != i ==> (#[trigger] map.edges[n][j]).to != NodeId(m),
{
    let (x, y) = lemma_grid_place(cols, rows, n as int);
    let (x2, y2) = lemma_grid_place(cols, rows, m as int);
    lemma_grid_number(cols, rows, x, y);
    lemma_grid_number(cols, rows, x2, y2);
    assert(has_grid_node(map, cols, rows, x, y));
    let l = if x > 0 {
        1int
    } else {
        0
    };
    let u = if y > 0 {
        l + 1
    } else {
        l
    };
    let r = if x + 1 < cols {
        u + 1
    } else {
        u
    };
    let i = if x2 == x - 1 {
        0
    } else if y2 == y - 1 {
        l
    } else if x2 == x + 1 {
        u
    } else {
        r
    };
    let out = map.out(n);
    assert(out == grid_edges(cols, rows, x, y));
    assert(out[i] == grid_edge(cols, x, y, x2, y2));
    assert(map.edges.contains_key(n));
    assert(map.edges[n] == out);
    assert forall|j: int| 0 <= j < map.edges[n].len() && j != i implies (
    #[trigger] map.edges[n][j]).to != NodeId(m) by {
        let (x3, y3) = lemma_grid_neighbour(cols, rows, x, y, j);
        lemma_grid_number(cols, rows, x3, y3);
        if x3 == x2 && y3 == y2 {
            assert(j == (if x3 == x - 1 {
                0
            } else if y3 == y - 1 {
                l
            } else if x3 == x + 1 {
                u
            } else {
                r
            })) by {
                if x > 0 {
                    assert(out[0] == grid_edge(cols, x, y, x - 1, y));
                    lemma_grid_number(cols, rows, x - 1, y);
                }
                if y > 0 {
                    assert(out[l] == grid_edge(cols, x, y, x, y - 1));
                    lemma_grid_number(cols, rows, x, y - 1);
                }
                if x + 1 < cols {
                    assert(out[u] == grid_edge(cols, x, y, x + 1, y));
                    lemma_grid_number(cols, rows, x + 1, y);
                }
                if y + 1 < rows {
                    assert(out[r] == grid_edge(cols, x, y, x, y + 1));
                    lemma_grid_number(cols, rows, x, y + 1);
                }
                assert(out[j] == grid_edge(cols, x, y, x3, y3));
            }
        }
    }
    i
}

/// Whether a point is within a hundredth of a metre of `(x, y)` in either direction.
pub open spec fn is_close(l: Location, x: int, y: int) -> bool {
    -655 <= l.x - x <= 655 && -655 <= l.y - y <= 655
}

/// Whether `(x, y)` is a corner of a box.
pub open spec fn is_corner(
    min_x: int,
    min_y: int,
    max_x: int,
    max_y: int,
    x: int,
    y: int,
) -> bool {
    (x == min_x || x == max_x) && (y == min_y || y == max_y)
}

/// Whether `i` is the first of the listed nodes that is close to `(x, y)`.
pub open spec fn is_first_close(locs: Seq<(NodeId, Location)>, i: int, x: int, y: int) -> bool {
    &&& 0 <= i < locs.len()
    &&& is_close(locs[i].1, x, y)
    &&& forall|j: int| 0 <= j < i ==> !is_close((#[trigger] locs[j]).1, x, y)
}

/// The first listed node that is close to a point is the one that is found there.
proof fn lemma_first_close(locs: Seq<(NodeId, Location)>, x: int, y: int, n: nat)
    requires
        n <= locs.len(),
    ensures
        first_at(locs, x, y, n) matches Some(id) ==> exists|i: int|
            i < n && #[trigger] is_first_close(locs, i, x, y) && locs[i].0 == id,
        first_at(locs, x, y, n) is None ==> forall|i: int|
            0 <= i < n ==> !is_close((#[trigger] locs[i]).1, x, y),
    decreases n,
{
    if n > 0 {
        lemma_first_close(locs, x, y, (n - 1) as nat);
        if first_at(locs, x, y, (n - 1) as nat) is None && is_at(locs[n - 1].1, x, y) {
            assert(is_first_close(locs, n - 1, x, y));
        }
    }
}

/// There is a charging station at each corner of the box around all nodes that has a node: the
/// first listed one close to the corner. There are no others, and no node has two.
pub proof fn law_chargers_stand_at_the_corners(
    locs: Seq<(NodeId, Location)>,
    chargers: Seq<NodeId>,
    min_x: int,
    min_y: int,
    max_x: int,
    max_y: int,
    id: NodeId,
)
    requires
        are_corners(locs, chargers),
        forall|i: int|
            0 <= i < locs.len() ==> min_x <= (#[trigger] locs[i]).1.x <= max_x && min_y
                <= locs[i].1.y <= max_y,
        exists|i: int| 0 <= i < locs.len() && (#[trigger] locs[i]).1.x == min_x,
        exists|i: int| 0 <= i < locs.len() && (#[trigger] locs[i]).1.y == min_y,
        exists|i: int| 0 <= i < locs.len() && (#[trigger] locs[i]).1.x == max_x,
        exists|i: int| 0 <= i < locs.len() && (#[trigger] locs[i]).1.y == max_y,
    ensures
        chargers.no_duplicates(),
        chargers.len() <= 4,
        chargers.contains(id) <==> exists|i: int, x: int, y: int|
            {
                &&& is_corner(min_x, min_y, max_x, max_y, x, y)
                &&& #[trigger] is_first_close(locs, i, x, y)
                &&& locs[i].0 == id
            },
{
    let (a, b, c, d) = choose|a: int, b: int, c: int, d: int| #[trigger]
        is_box_of(locs, a, b, c, d) && chargers == corners_of(locs, a, b, c, d);
    assert(a == min_x && b == min_y && c == max_x && d == max_y);
    let n = locs.len();
    lemma_first_close(locs, min_x, min_y, n);
    lemma_first_close(locs, max_x, min_y, n);
    lemma_first_close(locs, min_x, max_y, n);
    lemma_first_close(locs, max_x, max_y, n);
    let s1 = with_corner(Seq::empty(), first_at(locs, min_x, min_y, n));
    let s2 = with_corner(s1, first_at(locs, max_x, min_y, n));
    let s3 = with_corner(s2, first_at(locs, min_x, max_y, n));
    lemma_with_corner(Seq::empty(), first_at(locs, min_x, min_y, n), id);
    lemma_with_corner(s1, first_at(locs, max_x, min_y, n), id);
    lemma_with_corner(s2, first_at(locs, min_x, max_y, n), id);
    lemma_with_corner(s3, first_at(locs, max_x, max_y, n), id);
    if exists|i: int, x: int, y: int|
        {
            &&& is_corner(min_x, min_y, max_x, max_y, x, y)
            &&& #[trigger] is_first_close(locs, i, x, y)
            &&& locs[i].0 == id
        } {
        let (i, x, y) = choose|i: int, x: int, y: int|
            {
                &&& is_corner(min_x, min_y, max_x, max_y, x, y)
                &&& #[trigger] is_first_close(locs, i, x, y)
                &&& locs[i].0 == id
            };
        assert(first_at(locs, x, y, n) == Some(id));
    }
}

/// A list with one more node holds that one and those before, each once.
proof fn lemma_with_corner(out: Seq<NodeId>, corner: Option<NodeId>, id: NodeId)
    requires
        out.no_duplicates(),
    ensures
        with_corner(out, corner).no_duplicates(),
        with_corner(out, corner).len() <= out.len() + 1,
        with_corner(out, corner).contains(id) <==> out.contains(id) || corner == Some(id),
{
    let more = with_corner(out, corner);
    if more != out {
        let last = out.len() as int;
        assert(more[last] == corner->0);
        if out.contains(id) {
            let k = out.index_of(id);
            assert(more[k] == id);
        }
    }
}

/// A site without nodes has no charging station.
pub proof fn law_an_empty_site_has_no_charger(chargers: Seq<NodeId>)
    requires
        are_corners(Seq::empty(), chargers),
    ensures
        chargers.len() == 0,
{
}

} // verus!
