//! The layout engine: add, move and remove items with automatic,
//! cascading collision resolution.
//!
//! The engine owns the live spatial grid and the item registry, the only
//! authoritative copy of each item's geometry. A public call plans its
//! whole change-set against disposable copies of the grid, then commits
//! the changes to the live state in order and fires one event carrying
//! them. The planning never touches live state, so a failed call leaves
//! the engine exactly as it was.
//!
//! Collision policy: an item placed onto occupied cells displaces each
//! occupant straight down, to the row just below the incoming rectangle;
//! displaced items may displace further items in turn, and the first
//! scheduled destination for an item within one operation wins.
//!
//! The central invariant, kept by every committed operation: whenever a
//! grid cell holds an id, that id is registered, and the cell lies inside
//! the registered rectangle (see [`consistent`]).

use vstd::prelude::*;

use crate::error::{GridEngineError, InnerGridError, ItemError};
use crate::grid_events::{ChangesEventValue, GridEvents};
use crate::inner_grid::{opt_id, InnerGrid, UpdateGridOperation};
use crate::node::{in_rect, Node};

verus! {

// ---------------------------------------------------------------------
// Ordering of item ids
// ---------------------------------------------------------------------
/// Strict lexicographic order on byte sequences.
pub open spec fn bytes_lt(a: Seq<u8>, b: Seq<u8>) -> bool
    decreases a.len(),
{
    if b.len() == 0 {
        false
    } else if a.len() == 0 {
        true
    } else if a[0] != b[0] {
        a[0] < b[0]
    } else {
        bytes_lt(a.drop_first(), b.drop_first())
    }
}

/// The order the registry keeps ids in: lexicographic on their UTF-8
/// encodings (the byte order of Rust strings).
pub open spec fn id_lt(a: Seq<char>, b: Seq<char>) -> bool {
    bytes_lt(vstd::utf8::encode_utf8(a), vstd::utf8::encode_utf8(b))
}

/// `bytes_lt` never relates a sequence to itself.
proof fn lemma_bytes_lt_irrefl(a: Seq<u8>)
    ensures
        !bytes_lt(a, a),
    decreases a.len(),
{
    if a.len() > 0 {
        lemma_bytes_lt_irrefl(a.drop_first());
    }
}

/// Two distinct byte sequences are ordered one way or the other.
proof fn lemma_bytes_lt_connected(a: Seq<u8>, b: Seq<u8>)
    requires
        a != b,
    ensures
        bytes_lt(a, b) || bytes_lt(b, a),
    decreases a.len(),
{
    if a.len() == 0 && b.len() == 0 {
        assert(a =~= b);
    }
    if a.len() > 0 && b.len() > 0 && a[0] == b[0] {
        if a.drop_first() == b.drop_first() {
            assert(a.drop_first().len() == b.drop_first().len());
            assert forall|i: int| 0 <= i < a.len() implies a[i] == b[i] by {
                if i > 0 {
                    assert(a.drop_first()[i - 1] == a[i]);
                    assert(b.drop_first()[i - 1] == b[i]);
                    assert(a.drop_first()[i - 1] == b.drop_first()[i - 1]);
                }
            }
            assert(a =~= b);
        } else {
            lemma_bytes_lt_connected(a.drop_first(), b.drop_first());
        }
    }
}

/// `bytes_lt` is transitive.
proof fn lemma_bytes_lt_trans(a: Seq<u8>, b: Seq<u8>, c: Seq<u8>)
    requires
        bytes_lt(a, b),
        bytes_lt(b, c),
    ensures
        bytes_lt(a, c),
    decreases a.len(),
{
    if a.len() > 0 && b.len() > 0 && c.len() > 0 && a[0] == b[0] && b[0] == c[0] {
        lemma_bytes_lt_trans(a.drop_first(), b.drop_first(), c.drop_first());
    }
}

/// Distinct character sequences have distinct UTF-8 encodings, so they
/// are ordered one way or the other by `id_lt`.
proof fn lemma_id_lt_connected(a: Seq<char>, b: Seq<char>)
    requires
        a != b,
    ensures
        id_lt(a, b) || id_lt(b, a),
{
    let ea = vstd::utf8::encode_utf8(a);
    let eb = vstd::utf8::encode_utf8(b);
    if ea == eb {
        vstd::utf8::encode_utf8_decode_utf8(a);
        vstd::utf8::encode_utf8_decode_utf8(b);
        assert(false);
    }
    lemma_bytes_lt_connected(ea, eb);
}

/// `id_lt` orders strictly: it is irreflexive and transitive.
proof fn lemma_id_lt_strict(a: Seq<char>, b: Seq<char>, c: Seq<char>)
    ensures
        !id_lt(a, a),
        id_lt(a, b) && id_lt(b, c) ==> id_lt(a, c),
{
    lemma_bytes_lt_irrefl(vstd::utf8::encode_utf8(a));
    if id_lt(a, b) && id_lt(b, c) {
        lemma_bytes_lt_trans(
            vstd::utf8::encode_utf8(a),
            vstd::utf8::encode_utf8(b),
            vstd::utf8::encode_utf8(c),
        );
    }
}

/// Compares two ids in the registry order.
fn id_lt_exec(a: &String, b: &String) -> (r: bool)
    ensures
        r == id_lt(a@, b@),
{
    let ab: &[u8] = a.as_str().as_bytes();
    let bb: &[u8] = b.as_str().as_bytes();
    proof {
        assert(ab@ == vstd::utf8::encode_utf8(a@));
        assert(bb@ == vstd::utf8::encode_utf8(b@));
        assert(ab@.skip(0) =~= ab@);
        assert(bb@.skip(0) =~= bb@);
    }
    let mut i: usize = 0;
    while i < ab.len() && i < bb.len()
        invariant
            i <= ab@.len(),
            i <= bb@.len(),
            ab@ == vstd::utf8::encode_utf8(a@),
            bb@ == vstd::utf8::encode_utf8(b@),
            bytes_lt(ab@.skip(i as int), bb@.skip(i as int)) == id_lt(a@, b@),
        decreases ab@.len() - i,
    {
        if ab[i] != bb[i] {
            proof {
                assert(ab@.skip(i as int)[0] == ab@[i as int]);
                assert(bb@.skip(i as int)[0] == bb@[i as int]);
            }
            return ab[i] < bb[i];
        }
        proof {
            assert(ab@.skip(i as int).drop_first() =~= ab@.skip(i + 1));
            assert(bb@.skip(i as int).drop_first() =~= bb@.skip(i + 1));
            assert(ab@.skip(i as int)[0] == ab@[i as int]);
            assert(bb@.skip(i as int)[0] == bb@[i as int]);
        }
        i = i + 1;
    }
    ab.len() < bb.len()
}

// ---------------------------------------------------------------------
// The registry: items ordered strictly by id
// ---------------------------------------------------------------------
/// Whether the items are in strictly ascending id order (so ids are
/// unique).
pub open spec fn ids_strictly_sorted(s: Seq<Node>) -> bool {
    forall|i: int, j: int| 0 <= i < j < s.len() ==> id_lt(#[trigger] s[i].id@, #[trigger] s[j].id@)
}

/// Whether some item carries this id.
pub open spec fn contains_id(s: Seq<Node>, id: Seq<char>) -> bool {
    exists|i: int| 0 <= i < s.len() && (#[trigger] s[i]).id@ == id
}

/// The index of the item carrying this id.
pub open spec fn idx_of(s: Seq<Node>, id: Seq<char>) -> int {
    choose|i: int| 0 <= i < s.len() && (#[trigger] s[i]).id@ == id
}

/// The item registered under this id.
pub open spec fn node_of(s: Seq<Node>, id: Seq<char>) -> Node {
    s[idx_of(s, id)]
}

/// In a strictly sorted registry, distinct positions hold distinct ids,
/// so the id determines the position.
proof fn lemma_sorted_ids_unique(s: Seq<Node>)
    requires
        ids_strictly_sorted(s),
    ensures
        forall|i: int, j: int|
            0 <= i < s.len() && 0 <= j < s.len() && i != j ==> (#[trigger] s[i]).id@ != (
            #[trigger] s[j]).id@,
{
    assert forall|i: int, j: int|
        0 <= i < s.len() && 0 <= j < s.len() && i != j implies (#[trigger] s[i]).id@ != (
    #[trigger] s[j]).id@ by {
        if s[i].id@ == s[j].id@ {
            lemma_id_lt_strict(s[i].id@, s[j].id@, s[j].id@);
        }
    }
}

/// For a sorted registry holding `id`, `node_of` gives the item at the
/// unique position holding `id`.
proof fn lemma_node_of(s: Seq<Node>, id: Seq<char>)
    requires
        ids_strictly_sorted(s),
        contains_id(s, id),
    ensures
        0 <= idx_of(s, id) < s.len(),
        node_of(s, id).id@ == id,
        forall|i: int| 0 <= i < s.len() && (#[trigger] s[i]).id@ == id ==> i == idx_of(s, id),
{
    lemma_sorted_ids_unique(s);
}

/// Finds the position of the item registered under `id`, if any.
fn find_index(items: &Vec<Node>, id: &String) -> (r: Option<usize>)
    ensures
        match r {
            Some(i) => i < items@.len() && items@[i as int].id@ == id@,
            None => !contains_id(items@, id@),
        },
{
    let mut i: usize = 0;
    while i < items.len()
        invariant
            i <= items@.len(),
            forall|j: int| 0 <= j < i ==> (#[trigger] items@[j]).id@ != id@,
        decreases items@.len() - i,
    {
        if items[i].id == *id {
            return Some(i);
        }
        i = i + 1;
    }
    None
}

// ---------------------------------------------------------------------
// Consistency between grid and registry
// ---------------------------------------------------------------------
/// The core invariant: every grid cell holding an id holds the id of a
/// registered item, and lies inside that item's rectangle.
pub open spec fn consistent(g: InnerGrid, items: Seq<Node>) -> bool {
    forall|cx: int, cy: int|
        (#[trigger] g.cell_at(cx, cy)) matches Some(id) ==> contains_id(items, id) && in_rect(
            node_of(items, id),
            cx,
            cy,
        )
}

/// Geometry bounds of registered items: every rectangle's extent stays
/// within machine range, and every item that occupies cells fits the
/// grid's columns and lies above the given row bound.
pub open spec fn reg_wf(items: Seq<Node>, width: nat, rows: nat) -> bool {
    forall|i: int|
        0 <= i < items.len() ==> (#[trigger] items[i]).x + items[i].w <= usize::MAX && items[i].y
            + items[i].h <= usize::MAX && (items[i].w > 0 && items[i].h > 0 ==> items[i].x
            + items[i].w <= width && items[i].y + items[i].h <= rows)
}

/// The grid changed only by growing: same columns, same growth flag,
/// the old rows unchanged, any new rows empty.
pub open spec fn grown_only(g0: InnerGrid, g1: InnerGrid) -> bool {
    &&& g1.width() == g0.width()
    &&& g1.expandable() == g0.expandable()
    &&& g1.cells().len() >= g0.cells().len()
    &&& forall|r: int| 0 <= r < g0.cells().len() ==> g1.cells()[r] == g0.cells()[r]
    &&& forall|r: int, c: int|
        g0.cells().len() <= r < g1.cells().len() && 0 <= c < g1.cells()[r].len()
            ==> g1.cells()[r][c] is None
}

/// Consistency carries over between grids whose cells agree.
proof fn lemma_consistent_same_cells(g0: InnerGrid, g1: InnerGrid, items: Seq<Node>)
    requires
        consistent(g0, items),
        forall|cx: int, cy: int| #[trigger] g1.cell_at(cx, cy) == g0.cell_at(cx, cy),
    ensures
        consistent(g1, items),
{
    assert forall|cx: int, cy: int| (#[trigger] g1.cell_at(cx, cy)) is Some implies {
        let id2 = g1.cell_at(cx, cy)->Some_0;
        contains_id(items, id2) && in_rect(node_of(items, id2), cx, cy)
    } by {
        assert(g1.cell_at(cx, cy) == g0.cell_at(cx, cy));
    }
}

/// Every occupied cell lies above the given row bound.
pub open spec fn occ_below(g: InnerGrid, bound: nat) -> bool {
    forall|cx: int, cy: int| (#[trigger] g.cell_at(cx, cy)) is Some ==> cy < bound
}

/// Under consistency, occupied cells lie inside registered rectangles,
/// which lie above the registered row bound.
proof fn lemma_consistent_occ_below(g: InnerGrid, items: Seq<Node>, bound: nat)
    requires
        ids_strictly_sorted(items),
        consistent(g, items),
        reg_wf(items, g.width(), bound),
    ensures
        occ_below(g, bound),
{
    assert forall|cx: int, cy: int| (#[trigger] g.cell_at(cx, cy)) is Some implies cy < bound by {
        let id = g.cell_at(cx, cy)->Some_0;
        assert(g.cell_at(cx, cy) matches Some(i) && i == id);
        lemma_node_of(items, id);
        let n = node_of(items, id);
        let ix = idx_of(items, id);
        assert(items[ix].w > 0 && items[ix].h > 0);
    }
}

/// Whether the id occupies some cell of the grid.
pub open spec fn occupies(g: InnerGrid, id: Seq<char>) -> bool {
    exists|cx: int, cy: int| #[trigger] g.cell_at(cx, cy) == Some(id)
}

/// Whether the id occupies a cell of the `w` by `h` rectangle at
/// `(x, y)`.
pub open spec fn occupies_rect(g: InnerGrid, x: int, y: int, w: int, h: int, id: Seq<char>) -> bool {
    exists|cx: int, cy: int|
        x <= cx < x + w && y <= cy < y + h && #[trigger] g.cell_at(cx, cy) == Some(id)
}

/// Whether some node of the list carries this id.
pub open spec fn lists_id(r: Seq<Node>, id: Seq<char>) -> bool {
    exists|k: int| 0 <= k < r.len() && (#[trigger] r[k]).id@ == id
}

// ---------------------------------------------------------------------
// Changes and plans
// ---------------------------------------------------------------------
/// Data of an addition: the node entering the grid.
#[derive(Clone, Debug, PartialEq, Eq, Hash)]
pub struct AddChangeData {
    /// The node being added to the grid
    pub value: Node,
}

/// Data of a removal: the node leaving the grid.
#[derive(Clone, Debug, PartialEq, Eq, Hash)]
pub struct RemoveChangeData {
    /// The node being removed from the grid
    pub value: Node,
}

/// Data of a movement: the node before and after.
#[derive(Clone, Debug, PartialEq, Eq, Hash)]
pub struct MoveChangeData {
    /// The original state of the node
    pub old_value: Node,
    /// The new state of the node after movement
    pub new_value: Node,
}

/// One structural change of the grid.
#[derive(Clone, Debug, PartialEq, Eq, Hash)]
pub enum Change {
    /// Adding a new item to the grid
    Add(AddChangeData),
    /// Removing an existing item from the grid
    Remove(RemoveChangeData),
    /// Moving an item to a new position
    Move(MoveChangeData),
}

/// The id a pending move is for (meaningful for `Move` changes only).
pub open spec fn move_id(ch: Change) -> Seq<char> {
    match ch {
        Change::Move(d) => d.new_value.id@,
        Change::Add(d) => d.value.id@,
        Change::Remove(d) => d.value.id@,
    }
}

/// A valid scheduled move: the old value is the registered item, the new
/// value keeps id and extent, and it fits the grid's columns whenever it
/// occupies cells.
pub open spec fn plan_move_ok(items: Seq<Node>, width: nat, ch: Change) -> bool {
    &&& ch is Move
    &&& {
        let d = ch->Move_0;
        &&& contains_id(items, d.old_value.id@)
        &&& d.old_value == node_of(items, d.old_value.id@)
        &&& d.new_value.id@ == d.old_value.id@
        &&& d.new_value.w == d.old_value.w
        &&& d.new_value.h == d.old_value.h
        &&& d.new_value.x + d.new_value.w <= usize::MAX
        &&& d.new_value.y + d.new_value.h <= usize::MAX
        &&& (d.new_value.w > 0 && d.new_value.h > 0 ==> d.new_value.x + d.new_value.w <= width)
    }
}

/// A well-formed batch of scheduled moves: each is valid, and no two are
/// for the same id.
pub open spec fn plan_wf(pending: Seq<Change>, items: Seq<Node>, width: nat) -> bool {
    &&& forall|k: int| 0 <= k < pending.len() ==> plan_move_ok(items, width, #[trigger] pending[k])
    &&& forall|k1: int, k2: int|
        0 <= k1 < k2 < pending.len() ==> move_id(#[trigger] pending[k1]) != move_id(
            #[trigger] pending[k2],
        )
}

/// One past the last row a node's rectangle covers, or zero when the
/// rectangle occupies no cells (and so cannot grow the grid).
pub open spec fn rect_bottom(n: Node) -> int {
    if n.w > 0 && n.h > 0 {
        n.y + n.h
    } else {
        0
    }
}

/// One past the last row a committed change can write or clear.
pub open spec fn change_bottom(ch: Change) -> int {
    match ch {
        Change::Add(d) => rect_bottom(d.value),
        Change::Remove(d) => rect_bottom(d.value),
        Change::Move(d) => vstd::math::max(rect_bottom(d.old_value), rect_bottom(d.new_value)),
    }
}

/// Whether the cell lies outside every rectangle this change touches.
pub open spec fn outside_change(ch: Change, cx: int, cy: int) -> bool {
    match ch {
        Change::Add(d) => !in_rect(d.value, cx, cy),
        Change::Remove(d) => !in_rect(d.value, cx, cy),
        Change::Move(d) => !in_rect(d.old_value, cx, cy) && !in_rect(d.new_value, cx, cy),
    }
}

/// One past the last row a whole batch can write or clear.
pub open spec fn changes_max_bottom(changes: Seq<Change>) -> int
    decreases changes.len(),
{
    if changes.len() == 0 {
        0
    } else {
        vstd::math::max(changes_max_bottom(changes.drop_last()), change_bottom(changes.last()))
    }
}

/// Every change of a batch stays within the batch's bottom bound.
proof fn lemma_changes_max_bottom(changes: Seq<Change>, k: int)
    requires
        0 <= k < changes.len(),
    ensures
        change_bottom(changes[k]) <= changes_max_bottom(changes),
    decreases changes.len(),
{
    if k < changes.len() - 1 {
        assert(changes.drop_last()[k] == changes[k]);
        lemma_changes_max_bottom(changes.drop_last(), k);
    }
}

/// A bound on every change of a batch bounds the whole batch.
proof fn lemma_changes_max_bottom_le(changes: Seq<Change>, cap: int)
    requires
        cap >= 0,
        forall|k: int| 0 <= k < changes.len() ==> change_bottom(#[trigger] changes[k]) <= cap,
    ensures
        changes_max_bottom(changes) <= cap,
    decreases changes.len(),
{
    if changes.len() > 0 {
        assert forall|k: int| 0 <= k < changes.drop_last().len() implies change_bottom(
            #[trigger] changes.drop_last()[k],
        ) <= cap by {
            assert(changes.drop_last()[k] == changes[k]);
        }
        lemma_changes_max_bottom_le(changes.drop_last(), cap);
        assert(changes.last() == changes[changes.len() - 1]);
    }
}

/// The destination of the first scheduled move for `id`, if one exists.
pub open spec fn planned_move(changes: Seq<Change>, id: Seq<char>) -> Option<Node>
    decreases changes.len(),
{
    if changes.len() == 0 {
        None
    } else {
        match changes[0] {
            Change::Move(d) => {
                if d.new_value.id@ == id {
                    Some(d.new_value)
                } else {
                    planned_move(changes.drop_first(), id)
                }
            },
            _ => planned_move(changes.drop_first(), id),
        }
    }
}

/// Where the item `nd` stands after the scheduled moves: at its first
/// scheduled destination, or where it was.
pub open spec fn moved(changes: Seq<Change>, nd: Node) -> Node {
    match planned_move(changes, nd.id@) {
        Some(m) => m,
        None => nd,
    }
}

// ---------------------------------------------------------------------
// The engine
// ---------------------------------------------------------------------
/// The engine: the live grid, the item registry, the changes pending
/// within the current operation, and the listener registry.
pub struct GridEngine {
    /// The live spatial grid
    grid: InnerGrid,
    /// The registered items, in strictly ascending id order
    items: Vec<Node>,
    /// Changes planned but not yet committed (empty between calls)
    pending_changes: Vec<Change>,
    /// Event system notified of committed changes
    pub events: GridEvents,
}

impl GridEngine {
    /// The live grid, as a specification value.
    pub closed spec fn grid_view(self) -> InnerGrid {
        self.grid
    }

    /// The registered items, in registry order.
    pub closed spec fn nodes_seq(self) -> Seq<Node> {
        self.items@
    }

    /// The changes planned within the current public call.
    pub closed spec fn pending_seq(self) -> Seq<Change> {
        self.pending_changes@
    }

    /// The event registry, as a specification value.
    pub closed spec fn events_view(self) -> GridEvents {
        self.events
    }

    /// The grid's rows.
    pub open spec fn rows_count(self) -> nat {
        self.grid_view().cells().len()
    }

    /// The engine's invariant, reestablished by every public operation:
    /// the grid is well-shaped and growable, the registry is strictly
    /// sorted with every placed item inside the grid, every occupied cell
    /// belongs to the item registered for its id, and no changes are
    /// pending.
    pub open spec fn wf(self) -> bool {
        &&& self.grid_view().wf()
        &&& self.grid_view().expandable()
        &&& ids_strictly_sorted(self.nodes_seq())
        &&& reg_wf(self.nodes_seq(), self.grid_view().width(), self.rows_count())
        &&& consistent(self.grid_view(), self.nodes_seq())
        &&& self.pending_seq().len() == 0
    }

    /// Collects the registered items the given node would overlap if its
    /// rectangle stood at `(x, y)`: for every occupied cell of that
    /// rectangle whose id is not the node's own, the item registered
    /// under that id, each item once. Fails with `OutOfBoundsAccess`
    /// exactly when the rectangle is non-empty and sticks out of the
    /// grid's columns (rows grow as needed on the given working grid).
    #[verifier::rlimit(100)]
    #[verifier::spinoff_prover]
    pub fn will_collides_with(
        &self,
        node: &Node,
        x: usize,
        y: usize,
        grid: &mut InnerGrid,
    ) -> (res: Result<Vec<Node>, InnerGridError>)
        requires
            old(grid).wf(),
            old(grid).expandable(),
            ids_strictly_sorted(self.nodes_seq()),
            consistent(*old(grid), self.nodes_seq()),
            x + node.w <= usize::MAX,
            y + node.h <= usize::MAX,
        ensures
            final(grid).wf(),
            grown_only(*old(grid), *final(grid)),
            final(grid).cells().len() <= vstd::math::max(
                old(grid).cells().len() as int,
                y + node.h,
            ),
            consistent(*final(grid), self.nodes_seq()),
            res is Ok ==> (node.w == 0 || node.h == 0 || x + node.w <= old(grid).width()),
            res is Ok ==> forall|k: int|
                0 <= k < (res->Ok_0)@.len() ==> contains_id(
                    self.nodes_seq(),
                    (#[trigger] (res->Ok_0)@[k]).id@,
                ) && (res->Ok_0)@[k] == node_of(self.nodes_seq(), (res->Ok_0)@[k].id@) && (
                res->Ok_0)@[k].id@ != node.id@ && occupies_rect(
                    *old(grid),
                    x as int,
                    y as int,
                    node.w as int,
                    node.h as int,
                    (res->Ok_0)@[k].id@,
                ),
            res is Ok ==> forall|id: Seq<char>|
                #[trigger] occupies_rect(
                    *old(grid),
                    x as int,
                    y as int,
                    node.w as int,
                    node.h as int,
                    id,
                ) && id != node.id@ ==> lists_id((res->Ok_0)@, id),
            res is Ok ==> forall|k1: int, k2: int|
                0 <= k1 < k2 < (res->Ok_0)@.len() ==> (#[trigger] (res->Ok_0)@[k1]).id@ != (
                #[trigger] (res->Ok_0)@[k2]).id@,
            res is Err ==> {
                let e = res->Err_0;
                &&& node.w > 0 && node.h > 0 && x + node.w > old(grid).width()
                &&& e == (InnerGridError::OutOfBoundsAccess {
                    x: if x >= old(grid).width() {
                        x
                    } else {
                        old(grid).width() as usize
                    },
                    y,
                })
            },
    {
        let mut collides_with: Vec<Node> = Vec::new();
        let mut i: usize = 0;
        while i < node.w
            invariant
                old(grid).wf(),
                old(grid).expandable(),
                grid.wf(),
                ids_strictly_sorted(self.nodes_seq()),
                consistent(*old(grid), self.nodes_seq()),
                x + node.w <= usize::MAX,
                y + node.h <= usize::MAX,
                i <= node.w,
                grown_only(*old(grid), *grid),
                grid.cells().len() <= vstd::math::max(old(grid).cells().len() as int, y + node.h),
                forall|cx: int, cy: int| #[trigger] grid.cell_at(cx, cy) == old(grid).cell_at(cx, cy),
                i > 0 && node.h > 0 ==> x + i - 1 < old(grid).width(),
                forall|k: int|
                    0 <= k < collides_with@.len() ==> {
                        let c = #[trigger] collides_with@[k];
                        &&& contains_id(self.nodes_seq(), c.id@)
                        &&& c == node_of(self.nodes_seq(), c.id@)
                        &&& c.id@ != node.id@
                        &&& occupies_rect(
                            *old(grid),
                            x as int,
                            y as int,
                            node.w as int,
                            node.h as int,
                            c.id@,
                        )
                    },
                forall|cx: int, cy: int|
                    #![trigger old(grid).cell_at(cx, cy)]
                    x <= cx < x + i && y <= cy < y + node.h ==> match old(grid).cell_at(cx, cy) {
                        Some(cid) => cid == node.id@ || lists_id(collides_with@, cid),
                        None => true,
                    },
                forall|k1: int, k2: int|
                    0 <= k1 < k2 < collides_with@.len() ==> (#[trigger] collides_with@[k1]).id@
                        != (#[trigger] collides_with@[k2]).id@,
            decreases node.w - i,
        {
            let mut j: usize = 0;
            while j < node.h
                invariant
                    old(grid).wf(),
                    old(grid).expandable(),
                    grid.wf(),
                    ids_strictly_sorted(self.nodes_seq()),
                    consistent(*old(grid), self.nodes_seq()),
                    x + node.w <= usize::MAX,
                    y + node.h <= usize::MAX,
                    i < node.w,
                    j <= node.h,
                    grown_only(*old(grid), *grid),
                    grid.cells().len() <= vstd::math::max(
                        old(grid).cells().len() as int,
                        y + node.h,
                    ),
                    forall|cx: int, cy: int| #[trigger] grid.cell_at(cx, cy) == old(grid).cell_at(cx, cy),
                    i > 0 && node.h > 0 ==> x + i - 1 < old(grid).width(),
                    j > 0 ==> x + i < old(grid).width(),
                    forall|k: int|
                        0 <= k < collides_with@.len() ==> {
                            let c = #[trigger] collides_with@[k];
                            &&& contains_id(self.nodes_seq(), c.id@)
                            &&& c == node_of(self.nodes_seq(), c.id@)
                            &&& c.id@ != node.id@
                            &&& occupies_rect(
                                *old(grid),
                                x as int,
                                y as int,
                                node.w as int,
                                node.h as int,
                                c.id@,
                            )
                        },
                    forall|cx: int, cy: int|
                        #![trigger old(grid).cell_at(cx, cy)]
                        x <= cx < x + node.w && y <= cy < y + node.h && (cx < x + i || (cx == x + i
                            && cy < y + j)) ==> match old(grid).cell_at(cx, cy) {
                            Some(cid) => cid == node.id@ || lists_id(collides_with@, cid),
                            None => true,
                        },
                    forall|k1: int, k2: int|
                        0 <= k1 < k2 < collides_with@.len() ==> (#[trigger] collides_with@[k1]).id@
                            != (#[trigger] collides_with@[k2]).id@,
                decreases node.h - j,
            {
                let ghost acc0 = collides_with@;
                let cx = x + i;
                let cy = y + j;
                let cell = match grid.get(cx, cy) {
                    Some(c) => c,
                    None => {
                        proof {
                            assert(cx >= old(grid).width());
                            if i > 0 {
                                assert(x + i - 1 < old(grid).width());
                            }
                            lemma_consistent_same_cells(*old(grid), *grid, self.nodes_seq());
                        }
                        return Err(
                            InnerGridError::OutOfBoundsAccess {
                                x: if i == 0 {
                                    x
                                } else {
                                    cx
                                },
                                y: cy,
                            },
                        );
                    },
                };
                proof {
                    assert(opt_id(cell) == grid.cell_at(cx as int, cy as int));
                    assert(grid.cell_at(cx as int, cy as int) == old(grid).cell_at(
                        cx as int,
                        cy as int,
                    ));
                }
                match cell {
                    Some(cell_id) => {
                        proof {
                            assert(old(grid).cell_at(cx as int, cy as int) == Some(cell_id@));
                        }
                        if !(cell_id == node.id) {
                            let idx = match find_index(&self.items, &cell_id) {
                                Some(idx) => idx,
                                None => {
                                    proof {
                                        assert(old(grid).cell_at(cx as int, cy as int) == Some(
                                            cell_id@,
                                        ));
                                        assert(false);
                                        lemma_consistent_same_cells(
                                            *old(grid),
                                            *grid,
                                            self.nodes_seq(),
                                        );
                                    }
                                    return Err(
                                        InnerGridError::MismatchedGridItem { id: cell_id },
                                    );
                                },
                            };
                            let already = contains_node_id(&collides_with, &cell_id);
                            if !already {
                                proof {
                                    assert(old(grid).cell_at(cx as int, cy as int) == Some(
                                        cell_id@,
                                    ));
                                    assert(contains_id(self.nodes_seq(), cell_id@));
                                    lemma_node_of(self.nodes_seq(), cell_id@);
                                    assert(occupies_rect(
                                        *old(grid),
                                        x as int,
                                        y as int,
                                        node.w as int,
                                        node.h as int,
                                        cell_id@,
                                    ));
                                }
                                collides_with.push(self.items[idx].clone());
                                proof {
                                    assert((#[trigger] collides_with@[collides_with@.len() - 1]).id@
                                        == cell_id@);
                                    assert(lists_id(collides_with@, cell_id@));
                                }
                            }
                            proof {
                                assert(lists_id(collides_with@, cell_id@));
                            }
                        }
                    },
                    None => {
                        proof {
                            assert(old(grid).cell_at(cx as int, cy as int) is None);
                        }
                    },
                }
                proof {
                    assert forall|cx2: int, cy2: int|
                        #![trigger old(grid).cell_at(cx2, cy2)]
                        x <= cx2 < x + node.w && y <= cy2 < y + node.h && (cx2 < x + i || (cx2 == x
                            + i && cy2 < y + j + 1)) implies match old(grid).cell_at(cx2, cy2) {
                        Some(cid) => cid == node.id@ || exists|k: int|
                            0 <= k < collides_with@.len() && (#[trigger] collides_with@[k]).id@
                                == cid,
                        None => true,
                    } by {
                        if old(grid).cell_at(cx2, cy2) is Some {
                            let cid = old(grid).cell_at(cx2, cy2)->Some_0;
                            if cx2 < x + i || (cx2 == x + i && cy2 < y + j) {
                                if cid != node.id@ {
                                    assert(lists_id(acc0, cid));
                                    let k0 = choose|k: int|
                                        0 <= k < acc0.len() && (#[trigger] acc0[k]).id@ == cid;
                                    assert(collides_with@[k0] == acc0[k0]);
                                    assert((#[trigger] collides_with@[k0]).id@ == cid);
                                    assert(lists_id(collides_with@, cid));
                                }
                            } else {
                                assert(cx2 == x + i && cy2 == y + j);
                            }
                        }
                    }
                }
                j = j + 1;
            }
            i = i + 1;
        }
        proof {
            if node.w > 0 && node.h > 0 {
                assert(x + node.w - 1 < old(grid).width());
            }
            lemma_consistent_same_cells(*old(grid), *grid, self.nodes_seq());
            assert forall|id: Seq<char>|
                #[trigger] occupies_rect(
                    *old(grid),
                    x as int,
                    y as int,
                    node.w as int,
                    node.h as int,
                    id,
                ) && id != node.id@ implies lists_id(collides_with@, id) by {
                let (wx, wy): (int, int) = choose|wx: int, wy: int|
                    x <= wx < x + node.w && y <= wy < y + node.h && #[trigger] old(grid).cell_at(
                        wx,
                        wy,
                    ) == Some(id);
                assert(old(grid).cell_at(wx, wy) == Some(id));
            }
        }
        Ok(collides_with)
    }
}

/// Whether a move for this id is already scheduled.
pub open spec fn pending_has_move_for(changes: Seq<Change>, id: Seq<char>) -> bool {
    exists|k: int|
        0 <= k < changes.len() && (#[trigger] changes[k]) is Move
            && changes[k]->Move_0.new_value.id@ == id
}

/// A cascade-scheduled move, seen from the operation that displaced the
/// item: it moves some occupant of the working grid other than the
/// driving node itself, strictly downward, keeping its column.
pub open spec fn cascade_move_ok(ch: Change, driver: Seq<char>, grid: InnerGrid) -> bool {
    &&& ch is Move
    &&& ch->Move_0.new_value.id@ != driver
    &&& ch->Move_0.new_value.y > ch->Move_0.old_value.y
    &&& ch->Move_0.new_value.x == ch->Move_0.old_value.x
    &&& occupies(grid, ch->Move_0.new_value.id@)
}

impl GridEngine {
    /// Everything the planning phase relies on, relative to a working
    /// grid: the working grid is well-shaped, growable and as wide as
    /// the live one, it is consistent with the sorted registry, and the
    /// live row count leaves arithmetic headroom for the cascade.
    pub open spec fn planning_inv(self, grid: InnerGrid) -> bool {
        &&& grid.wf()
        &&& grid.expandable()
        &&& grid.width() == self.grid_view().width()
        &&& ids_strictly_sorted(self.nodes_seq())
        &&& reg_wf(self.nodes_seq(), self.grid_view().width(), self.rows_count())
        &&& consistent(grid, self.nodes_seq())
        &&& self.rows_count() <= usize::MAX / 4
    }

    /// Resolves every collision the node would cause at `(x, y)`:
    /// schedules a move for each overlapped occupant to the row just
    /// below the node's rectangle, cascading recursively through
    /// whatever those moves overlap in turn. Only the pending change
    /// list and the working grid (by growth) are touched.
    fn handle_collision(
        &mut self,
        node: &Node,
        x: usize,
        y: usize,
        grid: &mut InnerGrid,
    ) -> (res: Result<(), InnerGridError>)
        requires
            old(self).planning_inv(*old(grid)),
            plan_wf(
                old(self).pending_seq(),
                old(self).nodes_seq(),
                old(self).grid_view().width(),
            ),
            !contains_id(old(self).nodes_seq(), node.id@) || node == node_of(
                old(self).nodes_seq(),
                node.id@,
            ),
            !contains_id(old(self).nodes_seq(), node.id@) ==> node.x == x && node.y == y,
            x + node.w <= usize::MAX,
            y + node.h <= usize::MAX,
            node.w == 0 || node.h == 0 || (y <= usize::MAX - usize::MAX / 4 && node.h <= usize::MAX
                / 2),
        ensures
            final(self).nodes_seq() == old(self).nodes_seq(),
            final(self).grid_view() == old(self).grid_view(),
            final(self).events == old(self).events,
            grown_only(*old(grid), *final(grid)),
            forall|cx: int, cy: int| #[trigger]
                final(grid).cell_at(cx, cy) == old(grid).cell_at(cx, cy),
            final(self).pending_seq().len() >= old(self).pending_seq().len(),
            forall|k: int|
                0 <= k < old(self).pending_seq().len() ==> #[trigger] final(self).pending_seq()[k]
                    == old(self).pending_seq()[k],
            res is Ok ==> plan_wf(
                final(self).pending_seq(),
                old(self).nodes_seq(),
                old(self).grid_view().width(),
            ),
            res is Ok ==> (node.w == 0 || node.h == 0 || x + node.w <= old(grid).width()),
            res is Ok ==> forall|k: int|
                old(self).pending_seq().len() <= k < final(self).pending_seq().len()
                    ==> cascade_move_ok(
                    #[trigger] final(self).pending_seq()[k],
                    node.id@,
                    *old(grid),
                ),
            // every occupant of the target rectangle ends up with a scheduled move
            res is Ok ==> forall|id: Seq<char>|
                #[trigger] occupies_rect(
                    *old(grid),
                    x as int,
                    y as int,
                    node.w as int,
                    node.h as int,
                    id,
                ) && id != node.id@ ==> pending_has_move_for(final(self).pending_seq(), id),
            // an unoccupied target rectangle schedules nothing
            res is Ok && (forall|id: Seq<char>|
                id != node.id@ ==> !occupies_rect(
                    *old(grid),
                    x as int,
                    y as int,
                    node.w as int,
                    node.h as int,
                    id,
                )) ==> final(self).pending_seq() == old(self).pending_seq(),
            // scheduled rectangles stay within a bounded depth below the live rows
            res is Ok ==> forall|k: int|
                old(self).pending_seq().len() <= k < final(self).pending_seq().len()
                    ==> rect_bottom((#[trigger] final(self).pending_seq()[k])->Move_0.new_value)
                    <= vstd::math::max(
                    3 * old(self).rows_count() as int,
                    2 * old(self).rows_count() + node.h,
                ),
            final(grid).cells().len() <= vstd::math::max(
                old(grid).cells().len() as int,
                y + node.h,
            ),
            res is Err ==> {
                &&& final(self).pending_seq() == old(self).pending_seq()
                &&& node.w > 0 && node.h > 0 && x + node.w > old(grid).width()
                &&& res->Err_0 == (InnerGridError::OutOfBoundsAccess {
                    x: if x >= old(grid).width() {
                        x
                    } else {
                        old(grid).width() as usize
                    },
                    y,
                })
            },
        decreases
                (if (y as int) < old(self).rows_count() {
                    old(self).rows_count() - y
                } else {
                    0int
                }),
                0int,
    {
        let ghost items = old(self).nodes_seq();
        let ghost width = old(self).grid_view().width();
        let ghost rows_bound = old(self).rows_count();
        let collides_with = match self.will_collides_with(node, x, y, grid) {
            Ok(v) => v,
            Err(e) => {
                return Err(e);
            },
        };
        let ghost g1 = *grid;
        let mut idx: usize = 0;
        while idx < collides_with.len()
            invariant
                idx <= collides_with@.len(),
                items == old(self).nodes_seq(),
                width == old(self).grid_view().width(),
                rows_bound == old(self).rows_count(),
                self.nodes_seq() == items,
                self.grid_view() == old(self).grid_view(),
                self.events == old(self).events,
                old(self).planning_inv(*old(grid)),
                *grid == g1,
                self.planning_inv(*grid),
                grown_only(*old(grid), *grid),
                forall|cx: int, cy: int| #[trigger] grid.cell_at(cx, cy) == old(grid).cell_at(
                    cx,
                    cy,
                ),
                !contains_id(items, node.id@) || node == node_of(items, node.id@),
                !contains_id(items, node.id@) ==> node.x == x && node.y == y,
                x + node.w <= usize::MAX,
                y + node.h <= usize::MAX,
                node.w == 0 || node.h == 0 || (y <= usize::MAX - usize::MAX / 4 && node.h
                    <= usize::MAX / 2),
                node.w == 0 || node.h == 0 || x + node.w <= old(grid).width(),
                forall|k: int|
                    0 <= k < collides_with@.len() ==> contains_id(
                        items,
                        (#[trigger] collides_with@[k]).id@,
                    ) && collides_with@[k] == node_of(items, collides_with@[k].id@)
                        && collides_with@[k].id@ != node.id@ && occupies_rect(
                        *old(grid),
                        x as int,
                        y as int,
                        node.w as int,
                        node.h as int,
                        collides_with@[k].id@,
                    ),
                plan_wf(self.pending_seq(), items, width),
                self.pending_seq().len() >= old(self).pending_seq().len(),
                forall|k: int|
                    0 <= k < old(self).pending_seq().len() ==> #[trigger] self.pending_seq()[k]
                        == old(self).pending_seq()[k],
                forall|k: int|
                    old(self).pending_seq().len() <= k < self.pending_seq().len()
                        ==> cascade_move_ok(#[trigger] self.pending_seq()[k], node.id@, *old(grid)),
                forall|k: int|
                    0 <= k < idx ==> pending_has_move_for(
                        self.pending_seq(),
                        (#[trigger] collides_with@[k]).id@,
                    ),
                collides_with@.len() == 0 ==> self.pending_seq() == old(self).pending_seq(),
                forall|k: int|
                    old(self).pending_seq().len() <= k < self.pending_seq().len()
                        ==> rect_bottom((#[trigger] self.pending_seq()[k])->Move_0.new_value)
                        <= vstd::math::max(3 * rows_bound as int, 2 * rows_bound + node.h),
                g1.cells().len() <= vstd::math::max(old(grid).cells().len() as int, y + node.h),
            decreases collides_with@.len() - idx,
        {
            let collided = collides_with[idx].clone();
            proof {
                // the query rectangle is non-empty and overlaps `collided`
                let (wx, wy): (int, int) = choose|wx: int, wy: int|
                    x <= wx < x + node.w && y <= wy < y + node.h && #[trigger] old(grid).cell_at(
                        wx,
                        wy,
                    ) == Some(collided.id@);
                assert(grid.cell_at(wx, wy) == Some(collided.id@));
                assert(in_rect(node_of(items, collided.id@), wx, wy));
                lemma_node_of(items, collided.id@);
                lemma_consistent_occ_below(*grid, items, rows_bound);
                assert(wy < rows_bound);
                assert((y as int) < rows_bound);
            }
            let mut new_grid = grid.duplicate();
            match node.update_grid(&mut new_grid, UpdateGridOperation::Remove) {
                Ok(()) => {},
                Err(e) => {
                    return Err(e);
                },
            }
            proof {
                // erasing the driver leaves a consistent grid that no
                // longer holds the driver's id anywhere
                assert forall|cx: int, cy: int| (#[trigger] new_grid.cell_at(cx, cy))
                    is Some implies new_grid.cell_at(cx, cy) == grid.cell_at(cx, cy) by {
                    if in_rect(*node, cx, cy) {
                        assert(new_grid.cell_at(cx, cy) != Some(node.id@) ==> new_grid.cell_at(
                            cx,
                            cy,
                        ) == grid.cell_at(cx, cy));
                    }
                }
                lemma_consistent_same_cells_weak(*grid, new_grid, items);
                assert forall|cx: int, cy: int| !(#[trigger] new_grid.cell_at(cx, cy) == Some(
                    node.id@,
                )) by {
                    if new_grid.cell_at(cx, cy) == Some(node.id@) {
                        assert(grid.cell_at(cx, cy) == Some(node.id@));
                        if contains_id(items, node.id@) {
                            lemma_node_of(items, node.id@);
                            assert(in_rect(node_of(items, node.id@), cx, cy));
                            assert(in_rect(*node, cx, cy));
                        }
                    }
                }
            }
            let new_x = collided.x;
            let new_y = y + node.h;
            proof {
                assert(collided.y < new_y);
                assert(new_y <= usize::MAX - usize::MAX / 4) by {
                    assert((y as int) < rows_bound);
                    assert(rows_bound <= usize::MAX / 4);
                    assert(node.h <= usize::MAX / 2);
                };
                let ix = idx_of(items, collided.id@);
                assert(items[ix].x + items[ix].w <= usize::MAX);
                assert(collided.w > 0 && collided.h > 0);
                assert(items[ix].y + items[ix].h <= rows_bound);
                assert(collided.h <= rows_bound);
                assert(collided.h <= usize::MAX / 4);
                assert(new_y + collided.h <= usize::MAX);
            }
            let ghost pend0 = self.pending_seq();
            let ghost ng0 = new_grid;
            match self.create_move_change(collided, new_x, new_y, &mut new_grid) {
                Ok(()) => {},
                Err(e) => {
                    proof {
                        assert(false);
                    }
                    return Err(e);
                },
            }
            proof {
                // the collided item now has a scheduled move, and earlier
                // ones keep theirs (the pending list only grew)
                assert forall|k: int| 0 <= k < idx + 1 implies pending_has_move_for(
                    self.pending_seq(),
                    (#[trigger] collides_with@[k]).id@,
                ) by {
                    if k < idx {
                        let k0 = choose|k0: int|
                            0 <= k0 < pend0.len() && (#[trigger] pend0[k0]) is Move
                                && pend0[k0]->Move_0.new_value.id@ == collides_with@[k].id@;
                        assert(self.pending_seq()[k0] == pend0[k0]);
                        assert((#[trigger] self.pending_seq()[k0]) is Move
                            && self.pending_seq()[k0]->Move_0.new_value.id@
                            == collides_with@[k].id@);
                    }
                }
                // every newly scheduled rectangle stays within the depth cap
                assert forall|k: int|
                    old(self).pending_seq().len() <= k < self.pending_seq().len()
                        implies rect_bottom(
                        (#[trigger] self.pending_seq()[k])->Move_0.new_value,
                    ) <= vstd::math::max(3 * rows_bound as int, 2 * rows_bound + node.h) by {
                    if k < pend0.len() {
                        assert(self.pending_seq()[k] == pend0[k]);
                    } else {
                        assert(rect_bottom(self.pending_seq()[k]->Move_0.new_value)
                            <= vstd::math::max(
                            vstd::math::max(3 * rows_bound as int, 2 * rows_bound + collided.h),
                            new_y + collided.h,
                        ));
                    }
                }
                // every move scheduled by this step is a cascade move of
                // the current operation
                assert forall|k: int|
                    old(self).pending_seq().len() <= k < self.pending_seq().len()
                        implies cascade_move_ok(
                    #[trigger] self.pending_seq()[k],
                    node.id@,
                    *old(grid),
                ) by {
                    if k < pend0.len() {
                        assert(self.pending_seq()[k] == pend0[k]);
                    } else {
                        let ch = self.pending_seq()[k];
                        if move_id(ch) != collided.id@ {
                            assert(cascade_move_ok(ch, collided.id@, ng0));
                            assert(occupies(ng0, ch->Move_0.new_value.id@));
                            let (ox, oy): (int, int) = choose|ox: int, oy: int| #[trigger]
                                ng0.cell_at(ox, oy) == Some(ch->Move_0.new_value.id@);
                            assert(ng0.cell_at(ox, oy) == grid.cell_at(ox, oy));
                            assert(old(grid).cell_at(ox, oy) == Some(ch->Move_0.new_value.id@));
                        } else {
                            assert(ch is Move && ch->Move_0.new_value.id@ == collided.id@);
                            assert(ch->Move_0.old_value == collided);
                            assert(ch->Move_0.new_value.y == new_y && ch->Move_0.new_value.x
                                == new_x);
                            let (wx2, wy2): (int, int) = choose|wx2: int, wy2: int|
                                x <= wx2 < x + node.w && y <= wy2 < y + node.h && #[trigger] old(
                                    grid,
                                ).cell_at(wx2, wy2) == Some(collided.id@);
                            assert(old(grid).cell_at(wx2, wy2) == Some(collided.id@));
                        }
                    }
                }
            }
            idx = idx + 1;
        }
        proof {
            // every occupant of the target rectangle was collected, so it
            // now has a scheduled move; and an empty collection means an
            // unoccupied rectangle scheduled nothing
            assert forall|id: Seq<char>|
                #[trigger] occupies_rect(
                    *old(grid),
                    x as int,
                    y as int,
                    node.w as int,
                    node.h as int,
                    id,
                ) && id != node.id@ implies pending_has_move_for(self.pending_seq(), id) by {
                assert(lists_id(collides_with@, id));
                let k = choose|k: int|
                    0 <= k < collides_with@.len() && (#[trigger] collides_with@[k]).id@ == id;
                assert(pending_has_move_for(self.pending_seq(), collides_with@[k].id@));
            }
            if collides_with@.len() > 0 {
                assert(occupies_rect(
                    *old(grid),
                    x as int,
                    y as int,
                    node.w as int,
                    node.h as int,
                    collides_with@[0].id@,
                ) && collides_with@[0].id@ != node.id@);
            }
        }
        Ok(())
    }

    /// Schedules a move of `node` to `(new_x, new_y)`: first resolves
    /// whatever the node would collide with at the destination, then
    /// records the move, unless a move for this id is already pending
    /// (the first scheduled destination for an id wins).
    fn create_move_change(
        &mut self,
        node: Node,
        new_x: usize,
        new_y: usize,
        grid: &mut InnerGrid,
    ) -> (res: Result<(), InnerGridError>)
        requires
            old(self).planning_inv(*old(grid)),
            plan_wf(
                old(self).pending_seq(),
                old(self).nodes_seq(),
                old(self).grid_view().width(),
            ),
            contains_id(old(self).nodes_seq(), node.id@),
            node == node_of(old(self).nodes_seq(), node.id@),
            new_x + node.w <= usize::MAX,
            new_y + node.h <= usize::MAX,
            node.w == 0 || node.h == 0 || (new_y <= usize::MAX - usize::MAX / 4 && node.h
                <= usize::MAX / 2),
        ensures
            final(self).nodes_seq() == old(self).nodes_seq(),
            final(self).grid_view() == old(self).grid_view(),
            final(self).events == old(self).events,
            grown_only(*old(grid), *final(grid)),
            forall|cx: int, cy: int| #[trigger]
                final(grid).cell_at(cx, cy) == old(grid).cell_at(cx, cy),
            final(self).pending_seq().len() >= old(self).pending_seq().len(),
            forall|k: int|
                0 <= k < old(self).pending_seq().len() ==> #[trigger] final(self).pending_seq()[k]
                    == old(self).pending_seq()[k],
            res is Ok ==> plan_wf(
                final(self).pending_seq(),
                old(self).nodes_seq(),
                old(self).grid_view().width(),
            ),
            res is Ok ==> forall|k: int|
                old(self).pending_seq().len() <= k < final(self).pending_seq().len() ==> (
                #[trigger] final(self).pending_seq()[k]) is Move && (cascade_move_ok(
                    final(self).pending_seq()[k],
                    node.id@,
                    *old(grid),
                ) || move_id(final(self).pending_seq()[k]) == node.id@),
            res is Ok && !pending_has_move_for(old(self).pending_seq(), node.id@) ==> {
                let last = final(self).pending_seq().last();
                &&& final(self).pending_seq().len() > old(self).pending_seq().len()
                &&& last is Move
                &&& last->Move_0.old_value == node
                &&& last->Move_0.new_value.id@ == node.id@
                &&& last->Move_0.new_value.x == new_x
                &&& last->Move_0.new_value.y == new_y
                &&& last->Move_0.new_value.w == node.w
                &&& last->Move_0.new_value.h == node.h
                &&& forall|k: int|
                    old(self).pending_seq().len() <= k < final(self).pending_seq().len() - 1
                        ==> cascade_move_ok(
                        #[trigger] final(self).pending_seq()[k],
                        node.id@,
                        *old(grid),
                    )
            },
            res is Ok && pending_has_move_for(old(self).pending_seq(), node.id@) ==> forall|k: int|
                old(self).pending_seq().len() <= k < final(self).pending_seq().len()
                    ==> cascade_move_ok(
                    #[trigger] final(self).pending_seq()[k],
                    node.id@,
                    *old(grid),
                ),
            // after scheduling, a move for this id is always pending
            res is Ok ==> pending_has_move_for(final(self).pending_seq(), node.id@),
            // every occupant of the destination rectangle ends up with a
            // scheduled move
            res is Ok ==> forall|idq: Seq<char>|
                #[trigger] occupies_rect(
                    *old(grid),
                    new_x as int,
                    new_y as int,
                    node.w as int,
                    node.h as int,
                    idq,
                ) && idq != node.id@ ==> pending_has_move_for(final(self).pending_seq(), idq),
            // an unoccupied destination schedules only the node's own move
            res is Ok && !pending_has_move_for(old(self).pending_seq(), node.id@) && (forall|
                id: Seq<char>,
            |
                id != node.id@ ==> !occupies_rect(
                    *old(grid),
                    new_x as int,
                    new_y as int,
                    node.w as int,
                    node.h as int,
                    id,
                )) ==> final(self).pending_seq().len() == old(self).pending_seq().len() + 1,
            // scheduled rectangles stay within a bounded depth below the live rows
            res is Ok ==> forall|k: int|
                old(self).pending_seq().len() <= k < final(self).pending_seq().len()
                    ==> rect_bottom((#[trigger] final(self).pending_seq()[k])->Move_0.new_value)
                    <= vstd::math::max(
                    vstd::math::max(
                        3 * old(self).rows_count() as int,
                        2 * old(self).rows_count() + node.h,
                    ),
                    new_y + node.h,
                ),
            final(grid).cells().len() <= vstd::math::max(
                old(grid).cells().len() as int,
                new_y + node.h,
            ),
            res is Err ==> {
                &&& final(self).pending_seq() == old(self).pending_seq()
                &&& node.w > 0 && node.h > 0 && new_x + node.w > old(grid).width()
                &&& res->Err_0 == (InnerGridError::OutOfBoundsAccess {
                    x: if new_x >= old(grid).width() {
                        new_x
                    } else {
                        old(grid).width() as usize
                    },
                    y: new_y,
                })
            },
        decreases
                (if (new_y as int) < old(self).rows_count() {
                    old(self).rows_count() - new_y
                } else {
                    0int
                }),
                1int,
    {
        let old_node = node.clone();
        match self.handle_collision(&node, new_x, new_y, grid) {
            Ok(()) => {},
            Err(e) => {
                return Err(e);
            },
        }
        let already_moved = pending_contains_move_id(&self.pending_changes, &node.id);
        if already_moved {
            proof {
                assert(pending_has_move_for(old(self).pending_seq(), node.id@)) by {
                    let k = choose|k: int|
                        0 <= k < self.pending_seq().len() && (#[trigger] self.pending_seq()[k])
                            is Move && self.pending_seq()[k]->Move_0.new_value.id@ == node.id@;
                    assert(k < old(self).pending_seq().len()) by {
                        if k >= old(self).pending_seq().len() {
                            assert(cascade_move_ok(self.pending_seq()[k], node.id@, *old(grid)));
                        }
                    };
                    assert(old(self).pending_seq()[k] == self.pending_seq()[k]);
                };
            }
            return Ok(());
        }
        let new_node = Node::new(node.id, new_x, new_y, node.w, node.h);
        let ghost pend1 = self.pending_seq();
        self.pending_changes.push(
            Change::Move(MoveChangeData { old_value: old_node, new_value: new_node }),
        );
        proof {
            assert(!pending_has_move_for(old(self).pending_seq(), node.id@)) by {
                if pending_has_move_for(old(self).pending_seq(), node.id@) {
                    let k = choose|k: int|
                        0 <= k < old(self).pending_seq().len() && (#[trigger] old(self).pending_seq()[k]) is Move && old(self).pending_seq()[k]->Move_0.new_value.id@ == node.id@;
                    assert(pend1[k] == old(self).pending_seq()[k]);
                }
            };
            // the fresh move is valid and its id is scheduled only once
            assert(self.pending_seq().last()->Move_0.new_value.id@ == node.id@);
            assert forall|k: int| 0 <= k < pend1.len() implies move_id(#[trigger] pend1[k])
                != node.id@ by {
                if k >= old(self).pending_seq().len() {
                    assert(cascade_move_ok(pend1[k], node.id@, *old(grid)));
                } else {
                    assert(pend1[k] is Move);
                }
            }
            assert((#[trigger] self.pending_seq()[self.pending_seq().len() - 1]) is Move);
            assert(pending_has_move_for(self.pending_seq(), node.id@));
            // occupants scheduled during resolution stay scheduled
            assert forall|idq: Seq<char>|
                #[trigger] occupies_rect(
                    *old(grid),
                    new_x as int,
                    new_y as int,
                    node.w as int,
                    node.h as int,
                    idq,
                ) && idq != node.id@ implies pending_has_move_for(self.pending_seq(), idq) by {
                assert(pending_has_move_for(pend1, idq));
                let k0 = choose|k0: int|
                    0 <= k0 < pend1.len() && (#[trigger] pend1[k0]) is Move
                        && pend1[k0]->Move_0.new_value.id@ == idq;
                assert((#[trigger] self.pending_seq()[k0]) is Move
                    && self.pending_seq()[k0]->Move_0.new_value.id@ == idq);
            }
            // depth bound: the cascades carry theirs, the own move sits at
            // the requested destination
            assert forall|k: int|
                old(self).pending_seq().len() <= k < self.pending_seq().len()
                    implies rect_bottom((#[trigger] self.pending_seq()[k])->Move_0.new_value)
                    <= vstd::math::max(
                    vstd::math::max(
                        3 * old(self).rows_count() as int,
                        2 * old(self).rows_count() + node.h,
                    ),
                    new_y + node.h,
                ) by {
                if k < pend1.len() {
                    assert(self.pending_seq()[k] == pend1[k]);
                } else {
                    assert(self.pending_seq()[k]->Move_0.new_value == new_node);
                }
            }
        }
        Ok(())
    }
}

impl GridEngine {
    /// Applies a batch of planned changes to the live grid and registry,
    /// in order: an addition writes the node's footprint and registers
    /// it; a removal clears the node's owned cells and unregisters it; a
    /// move clears the old footprint, re-registers the new geometry and
    /// writes the new footprint. One event carrying the whole batch is
    /// fired at the end. The batch was planned against the same state,
    /// so no step can fail.
    #[verifier::rlimit(100)]
    #[verifier::spinoff_prover]
    fn apply_changes(&mut self, changes: &Vec<Change>) -> (res: Result<(), GridEngineError>)
        requires
            old(self).grid_view().wf(),
            old(self).grid_view().expandable(),
            ids_strictly_sorted(old(self).nodes_seq()),
            reg_wf(old(self).nodes_seq(), old(self).grid_view().width(), old(self).rows_count()),
            consistent(old(self).grid_view(), old(self).nodes_seq()),
            plan_shaped(changes@, old(self).nodes_seq(), old(self).grid_view().width()),
        ensures
            res is Ok,
            final(self).pending_seq() == old(self).pending_seq(),
            final(self).events.listeners() == old(self).events.listeners(),
            final(self).events.counter() == old(self).events.counter(),
            final(self).events.fired_count() == old(self).events.fired_count() + 1,
            final(self).grid_view().wf(),
            final(self).grid_view().expandable(),
            final(self).grid_view().width() == old(self).grid_view().width(),
            final(self).rows_count() >= old(self).rows_count(),
            final(self).rows_count() <= vstd::math::max(
                old(self).rows_count() as int,
                changes_max_bottom(changes@),
            ),
            forall|cx: int, cy: int|
                #![trigger final(self).grid_view().cell_at(cx, cy)]
                (forall|k: int|
                    0 <= k < changes@.len() ==> outside_change(#[trigger] changes@[k], cx, cy))
                    ==> final(self).grid_view().cell_at(cx, cy) == old(self).grid_view().cell_at(
                    cx,
                    cy,
                ),
            ids_strictly_sorted(final(self).nodes_seq()),
            reg_wf(
                final(self).nodes_seq(),
                final(self).grid_view().width(),
                final(self).rows_count(),
            ),
            consistent(final(self).grid_view(), final(self).nodes_seq()),
            changes@.len() == 0 ==> final(self).nodes_seq() == old(self).nodes_seq() && final(self).grid_view() == old(self).grid_view(),
            changes@.len() > 0 && changes@.last() is Move ==> final(self).nodes_seq() == moved_all(
                changes@,
                old(self).nodes_seq(),
            ),
            changes@.len() > 0 && changes@.last() is Add ==> exists|q: int|
                0 <= q <= moved_all(changes@, old(self).nodes_seq()).len() && final(self).nodes_seq() == #[trigger] moved_all(changes@, old(self).nodes_seq()).insert(
                    q,
                    changes@.last()->Add_0.value,
                ),
            changes@.len() > 0 && changes@.last() is Add && changes@.last()->Add_0.value.w > 0
                && changes@.last()->Add_0.value.h > 0 ==> forall|cx: int, cy: int|
                in_rect(changes@.last()->Add_0.value, cx, cy) ==> #[trigger] final(self).grid_view().cell_at(cx, cy) == Some(changes@.last()->Add_0.value.id@),
            changes@.len() > 0 && changes@.last() is Move && changes@.last()->Move_0.new_value.w
                > 0 && changes@.last()->Move_0.new_value.h > 0 ==> forall|cx: int, cy: int|
                in_rect(changes@.last()->Move_0.new_value, cx, cy) ==> #[trigger] final(self).grid_view().cell_at(cx, cy) == Some(changes@.last()->Move_0.new_value.id@),
            changes@.len() > 0 && changes@.last() is Remove ==> {
                let n = changes@.last()->Remove_0.value;
                &&& final(self).nodes_seq() == old(self).nodes_seq().remove(
                    idx_of(old(self).nodes_seq(), n.id@),
                )
                &&& final(self).rows_count() == old(self).rows_count()
                &&& forall|cx: int, cy: int| #[trigger]
                    final(self).grid_view().cell_at(cx, cy) == if in_rect(n, cx, cy) && old(self).grid_view().cell_at(cx, cy) == Some(n.id@) {
                        None
                    } else {
                        old(self).grid_view().cell_at(cx, cy)
                    }
            },
    {
        let ghost s0 = old(self).nodes_seq();
        let ghost g0 = old(self).grid_view();
        let ghost w0 = old(self).grid_view().width();
        let mut p: usize = 0;
        while p < changes.len()
            invariant
                p <= changes@.len(),
                s0 == old(self).nodes_seq(),
                g0 == old(self).grid_view(),
                w0 == g0.width(),
                plan_shaped(changes@, s0, w0),
                g0.wf(),
                g0.expandable(),
                ids_strictly_sorted(s0),
                reg_wf(s0, w0, g0.cells().len()),
                consistent(g0, s0),
                self.pending_seq() == old(self).pending_seq(),
                self.events == old(self).events,
                p == 0 ==> self.grid_view() == old(self).grid_view() && self.nodes_seq() == old(self).nodes_seq(),
                self.grid_view().wf(),
                self.grid_view().expandable(),
                self.grid_view().width() == w0,
                self.rows_count() >= g0.cells().len(),
                self.rows_count() <= vstd::math::max(
                    g0.cells().len() as int,
                    changes_max_bottom(changes@),
                ),
                forall|cx: int, cy: int|
                    #![trigger self.grid_view().cell_at(cx, cy)]
                    (forall|k: int|
                        0 <= k < changes@.len() ==> outside_change(#[trigger] changes@[k], cx, cy))
                        ==> self.grid_view().cell_at(cx, cy) == g0.cell_at(cx, cy),
                ids_strictly_sorted(self.nodes_seq()),
                reg_wf(self.nodes_seq(), w0, self.rows_count()),
                consistent(self.grid_view(), self.nodes_seq()),
                (p < changes@.len() || changes@.len() == 0 || changes@.last() is Move) ==> {
                    &&& self.nodes_seq() == moved_all(changes@.take(p as int), s0)
                    &&& self.nodes_seq().len() == s0.len()
                    &&& forall|i: int|
                        0 <= i < s0.len() ==> (#[trigger] self.nodes_seq()[i]).id@ == s0[i].id@
                },
                p == changes@.len() && changes@.len() > 0 && changes@.last() is Add ==> exists|
                    q: int,
                |
                    0 <= q <= moved_all(changes@, s0).len() && self.nodes_seq()
                        == #[trigger] moved_all(changes@, s0).insert(
                        q,
                        changes@.last()->Add_0.value,
                    ),
                p == changes@.len() && changes@.len() > 0 && changes@.last() is Add
                    && changes@.last()->Add_0.value.w > 0 && changes@.last()->Add_0.value.h > 0
                    ==> forall|cx: int, cy: int|
                    in_rect(changes@.last()->Add_0.value, cx, cy)
                        ==> #[trigger] self.grid_view().cell_at(cx, cy) == Some(
                        changes@.last()->Add_0.value.id@,
                    ),
                p == changes@.len() && changes@.len() > 0 && changes@.last() is Move
                    && changes@.last()->Move_0.new_value.w > 0
                    && changes@.last()->Move_0.new_value.h > 0 ==> forall|cx: int, cy: int|
                    in_rect(changes@.last()->Move_0.new_value, cx, cy)
                        ==> #[trigger] self.grid_view().cell_at(cx, cy) == Some(
                        changes@.last()->Move_0.new_value.id@,
                    ),
                p == changes@.len() && changes@.len() > 0 && changes@.last() is Remove ==> {
                    let n = changes@.last()->Remove_0.value;
                    &&& self.nodes_seq() == s0.remove(idx_of(s0, n.id@))
                    &&& self.rows_count() == g0.cells().len()
                    &&& forall|cx: int, cy: int| #[trigger]
                        self.grid_view().cell_at(cx, cy) == if in_rect(n, cx, cy) && g0.cell_at(
                            cx,
                            cy,
                        ) == Some(n.id@) {
                            None
                        } else {
                            g0.cell_at(cx, cy)
                        }
                },
                forall|k: int|
                    p <= k < changes@.len() - 1 ==> plan_move_ok(
                        self.nodes_seq(),
                        w0,
                        #[trigger] changes@[k],
                    ),
                p < changes@.len() && changes@.last() is Move ==> plan_move_ok(
                    self.nodes_seq(),
                    w0,
                    changes@.last(),
                ),
                p < changes@.len() && changes@.last() is Add ==> plan_add_ok(
                    self.nodes_seq(),
                    w0,
                    changes@.last()->Add_0.value,
                ),
                p < changes@.len() && changes@.last() is Remove ==> plan_remove_ok(
                    self.nodes_seq(),
                    changes@.last()->Remove_0.value,
                ),
            decreases changes@.len() - p,
        {
            let ghost pre_items = self.nodes_seq();
            let ghost pre_grid = self.grid_view();
            proof {
                if (p as int) < changes@.len() - 1 {
                    assert(plan_move_ok(pre_items, w0, changes@[p as int]));
                }
                assert(changes@.last() == changes@[changes@.len() - 1]);
                lemma_changes_max_bottom(changes@, p as int);
            }
            match &changes[p] {
                Change::Add(data) => {
                    proof {
                        assert(p as int == changes@.len() - 1);
                        assert(plan_add_ok(pre_items, w0, data.value));
                        // the fresh id occupies no cell yet
                        assert forall|cx: int, cy: int|
                            !(#[trigger] pre_grid.cell_at(cx, cy) == Some(data.value.id@)) by {
                            if pre_grid.cell_at(cx, cy) == Some(data.value.id@) {
                                assert(contains_id(pre_items, data.value.id@));
                            }
                        }
                    }
                    match data.value.update_grid(&mut self.grid, UpdateGridOperation::Add) {
                        Ok(()) => {},
                        Err(e) => {
                            proof {
                                assert(false);
                            }
                            return Err(GridEngineError::InnerGrid(e));
                        },
                    }
                    registry_insert(&mut self.items, data.value.clone());
                    proof {
                        let v = data.value;
                        let cur = self.nodes_seq();
                        let gm = self.grid_view();
                        assert(consistent(gm, cur)) by {
                            assert forall|cx: int, cy: int| (#[trigger] gm.cell_at(cx, cy))
                                is Some implies {
                                let cid = gm.cell_at(cx, cy)->Some_0;
                                contains_id(cur, cid) && in_rect(node_of(cur, cid), cx, cy)
                            } by {
                                let cid = gm.cell_at(cx, cy)->Some_0;
                                if in_rect(v, cx, cy) {
                                    assert(cid == v.id@);
                                    assert(node_of(cur, cid) == v);
                                } else {
                                    assert(gm.cell_at(cx, cy) == pre_grid.cell_at(cx, cy));
                                    assert(cid != v.id@);
                                    assert(node_of(cur, cid) == node_of(pre_items, cid));
                                }
                            }
                        };
                        assert(reg_wf(cur, w0, self.rows_count())) by {
                            let q = choose|q: int|
                                0 <= q <= pre_items.len() && cur == #[trigger] pre_items.insert(
                                    q,
                                    v,
                                );
                            assert forall|i: int| 0 <= i < cur.len() implies (#[trigger] cur[i]).x
                                + cur[i].w <= usize::MAX && cur[i].y + cur[i].h <= usize::MAX && (
                            cur[i].w > 0 && cur[i].h > 0 ==> cur[i].x + cur[i].w <= w0 && cur[i].y
                                + cur[i].h <= self.rows_count()) by {
                                if i < q {
                                    assert(cur[i] == pre_items[i]);
                                } else if i == q {
                                    assert(cur[i] == v);
                                } else {
                                    assert(cur[i] == pre_items[i - 1]);
                                }
                            }
                        };
                        // the whole-batch registry shape
                        assert(moved_all(changes@, s0) == pre_items) by {
                            assert(changes@.take(p as int).push(changes@[p as int]) =~= changes@);
                            assert forall|i: int| 0 <= i < s0.len() implies moved(changes@, s0[i])
                                == moved(changes@.take(p as int), s0[i]) by {
                                lemma_planned_move_push(
                                    changes@.take(p as int),
                                    changes@[p as int],
                                    s0[i].id@,
                                );
                            }
                            assert(moved_all(changes@, s0) =~= pre_items);
                        };
                    }
                },
                Change::Remove(data) => {
                    proof {
                        assert(changes@.len() == 1 && p == 0);
                        assert(plan_remove_ok(pre_items, data.value));
                        assert(pre_items == s0) by {
                            assert(changes@.take(0) =~= Seq::<Change>::empty());
                            assert(moved_all(changes@.take(0), s0) =~= s0);
                        };
                        lemma_node_of(s0, data.value.id@);
                    }
                    match data.value.update_grid(&mut self.grid, UpdateGridOperation::Remove) {
                        Ok(()) => {},
                        Err(e) => {
                            proof {
                                assert(false);
                            }
                            return Err(GridEngineError::InnerGrid(e));
                        },
                    }
                    let i = match find_index(&self.items, &data.value.id) {
                        Some(i) => i,
                        None => {
                            proof {
                                assert(false);
                            }
                            return Err(
                                GridEngineError::InnerGrid(
                                    InnerGridError::MismatchedGridItem { id: data.value.id.clone() },
                                ),
                            );
                        },
                    };
                    proof {
                        lemma_sorted_ids_unique(s0);
                        assert(i as int == idx_of(s0, data.value.id@));
                        lemma_lookup_remove(s0, i as int);
                    }
                    let _removed = self.items.remove(i);
                    proof {
                        let n = data.value;
                        let cur = self.nodes_seq();
                        let gm = self.grid_view();
                        assert(consistent(gm, cur)) by {
                            assert forall|cx: int, cy: int| (#[trigger] gm.cell_at(cx, cy))
                                is Some implies {
                                let cid = gm.cell_at(cx, cy)->Some_0;
                                contains_id(cur, cid) && in_rect(node_of(cur, cid), cx, cy)
                            } by {
                                let cid = gm.cell_at(cx, cy)->Some_0;
                                assert(gm.cell_at(cx, cy) == pre_grid.cell_at(cx, cy));
                                assert(cid != n.id@);
                                assert(node_of(cur, cid) == node_of(pre_items, cid));
                            }
                        };
                        assert(reg_wf(cur, w0, self.rows_count())) by {
                            assert forall|i2: int| 0 <= i2 < cur.len() implies (
                            #[trigger] cur[i2]).x + cur[i2].w <= usize::MAX && cur[i2].y
                                + cur[i2].h <= usize::MAX && (cur[i2].w > 0 && cur[i2].h > 0
                                ==> cur[i2].x + cur[i2].w <= w0 && cur[i2].y + cur[i2].h
                                <= self.rows_count()) by {
                                assert(cur[i2] == if i2 < i {
                                    pre_items[i2]
                                } else {
                                    pre_items[i2 + 1]
                                });
                            }
                        };
                    }
                },
                Change::Move(data) => {
                    proof {
                        assert(plan_move_ok(pre_items, w0, changes@[p as int]));
                        lemma_node_of(pre_items, data.old_value.id@);
                        // all cells of this id lie in the old rectangle
                        assert forall|cx: int, cy: int|
                            #[trigger] pre_grid.cell_at(cx, cy) == Some(data.old_value.id@)
                                implies in_rect(data.old_value, cx, cy) by {
                            assert(node_of(pre_items, data.old_value.id@) == data.old_value);
                        }
                    }
                    match data.old_value.update_grid(&mut self.grid, UpdateGridOperation::Remove) {
                        Ok(()) => {},
                        Err(e) => {
                            proof {
                                assert(false);
                            }
                            return Err(GridEngineError::InnerGrid(e));
                        },
                    }
                    let ghost gm = self.grid_view();
                    proof {
                        // the id is gone from the grid
                        assert forall|cx: int, cy: int|
                            !(#[trigger] gm.cell_at(cx, cy) == Some(data.old_value.id@)) by {
                            if gm.cell_at(cx, cy) == Some(data.old_value.id@) {
                                if !in_rect(data.old_value, cx, cy) {
                                    assert(gm.cell_at(cx, cy) == pre_grid.cell_at(cx, cy));
                                }
                            }
                        }
                    }
                    let i = match find_index(&self.items, &data.new_value.id) {
                        Some(i) => i,
                        None => {
                            proof {
                                assert(contains_id(pre_items, data.new_value.id@));
                                assert(false);
                            }
                            return Err(
                                GridEngineError::InnerGrid(
                                    InnerGridError::MismatchedGridItem {
                                        id: data.new_value.id.clone(),
                                    },
                                ),
                            );
                        },
                    };
                    proof {
                        lemma_sorted_ids_unique(pre_items);
                        assert(i as int == idx_of(pre_items, data.new_value.id@));
                        lemma_lookup_update(pre_items, i as int, data.new_value);
                    }
                    registry_replace(&mut self.items, i, data.new_value.clone());
                    match data.new_value.update_grid(&mut self.grid, UpdateGridOperation::Add) {
                        Ok(()) => {},
                        Err(e) => {
                            proof {
                                assert(false);
                            }
                            return Err(GridEngineError::InnerGrid(e));
                        },
                    }
                    proof {
                        let ch = changes@[p as int];
                        let nv = data.new_value;
                        let cur = self.nodes_seq();
                        let gf = self.grid_view();
                        assert(consistent(gf, cur)) by {
                            assert forall|cx: int, cy: int| (#[trigger] gf.cell_at(cx, cy))
                                is Some implies {
                                let cid = gf.cell_at(cx, cy)->Some_0;
                                contains_id(cur, cid) && in_rect(node_of(cur, cid), cx, cy)
                            } by {
                                let cid = gf.cell_at(cx, cy)->Some_0;
                                if in_rect(nv, cx, cy) {
                                    assert(cid == nv.id@);
                                    assert(node_of(cur, cid) == nv);
                                } else {
                                    assert(gf.cell_at(cx, cy) == gm.cell_at(cx, cy));
                                    assert(cid != nv.id@);
                                    assert(node_of(cur, cid) == node_of(pre_items, cid));
                                    assert(gm.cell_at(cx, cy) == pre_grid.cell_at(cx, cy));
                                }
                            }
                        };
                        assert(reg_wf(cur, w0, self.rows_count())) by {
                            assert forall|i2: int| 0 <= i2 < cur.len() implies (
                            #[trigger] cur[i2]).x + cur[i2].w <= usize::MAX && cur[i2].y
                                + cur[i2].h <= usize::MAX && (cur[i2].w > 0 && cur[i2].h > 0
                                ==> cur[i2].x + cur[i2].w <= w0 && cur[i2].y + cur[i2].h
                                <= self.rows_count()) by {
                                if i2 != i {
                                    assert(cur[i2] == pre_items[i2]);
                                }
                            }
                        };
                        // the fold over one more change
                        assert(changes@.take(p as int).push(ch) =~= changes@.take(p as int + 1));
                        assert(cur == moved_all(changes@.take(p as int + 1), s0)) by {
                            assert forall|i2: int| 0 <= i2 < s0.len() implies #[trigger] cur[i2]
                                == moved(changes@.take(p as int + 1), s0[i2]) by {
                                lemma_planned_move_push(changes@.take(p as int), ch, s0[i2].id@);
                                lemma_planned_move_props(changes@.take(p as int), s0[i2].id@);
                                if s0[i2].id@ == nv.id@ {
                                    assert(i2 == i) by {
                                        assert(pre_items[i2].id@ == s0[i2].id@);
                                        lemma_sorted_ids_unique(pre_items);
                                    };
                                    assert(!pending_has_move_for(
                                        changes@.take(p as int),
                                        nv.id@,
                                    )) by {
                                        if pending_has_move_for(changes@.take(p as int), nv.id@) {
                                            let k = choose|k: int|
                                                0 <= k < changes@.take(p as int).len() && (
                                                #[trigger] changes@.take(p as int)[k]) is Move
                                                    && changes@.take(
                                                    p as int,
                                                )[k]->Move_0.new_value.id@ == nv.id@;
                                            assert(changes@[k] is Move
                                                && changes@[k]->Move_0.new_value.id@ == nv.id@);
                                        }
                                    };
                                    assert(cur[i2] == nv);
                                } else {
                                    assert(cur[i2] == pre_items[i2]);
                                    assert(pre_items[i2] == moved(
                                        changes@.take(p as int),
                                        s0[i2],
                                    ));
                                }
                            }
                            assert(cur =~= moved_all(changes@.take(p as int + 1), s0));
                        };
                        if p as int == changes@.len() - 1 {
                            assert(changes@.take(p as int + 1) =~= changes@);
                        }
                        // remaining moves still target their registered items
                        assert forall|k: int|
                            p as int + 1 <= k < changes@.len() && (#[trigger] changes@[k])
                                is Move && plan_move_ok(pre_items, w0, changes@[k])
                                implies plan_move_ok(cur, w0, changes@[k]) by {
                            let ck = changes@[k];
                            assert(ck->Move_0.new_value.id@ != nv.id@);
                            assert(node_of(cur, ck->Move_0.old_value.id@) == node_of(
                                pre_items,
                                ck->Move_0.old_value.id@,
                            ));
                        }
                    }
                },
            }
            p = p + 1;
        }
        proof {
            if changes@.len() == 0 || changes@.last() is Move {
                assert(changes@.take(changes@.len() as int) =~= changes@);
                if changes@.len() == 0 {
                    assert(moved_all(changes@, s0) =~= s0);
                    assert(self.grid_view().wf());
                }
            }
        }
        let event = ChangesEventValue::new(changes.clone());
        self.events.trigger_changes_event(&event);
        Ok(())
    }
}

/// The scheduled moves keep the length, the ids and the order of the
/// registry, and remap each lookup to its first scheduled destination.
proof fn lemma_moved_all_lookup(changes: Seq<Change>, s: Seq<Node>)
    requires
        ids_strictly_sorted(s),
    ensures
        moved_all(changes, s).len() == s.len(),
        forall|i: int|
            0 <= i < s.len() ==> (#[trigger] moved_all(changes, s)[i]).id@ == s[i].id@,
        ids_strictly_sorted(moved_all(changes, s)),
        forall|id: Seq<char>| contains_id(moved_all(changes, s), id) <==> contains_id(s, id),
        forall|id: Seq<char>|
            contains_id(s, id) ==> node_of(moved_all(changes, s), id) == moved(
                changes,
                node_of(s, id),
            ),
{
    let t = moved_all(changes, s);
    assert forall|i: int| 0 <= i < s.len() implies (#[trigger] t[i]).id@ == s[i].id@ by {
        lemma_planned_move_props(changes, s[i].id@);
    }
    assert forall|a: int, b: int| 0 <= a < b < t.len() implies id_lt(
        #[trigger] t[a].id@,
        #[trigger] t[b].id@,
    ) by {}
    lemma_sorted_ids_unique(s);
    lemma_sorted_ids_unique(t);
    assert forall|id: Seq<char>| contains_id(t, id) implies contains_id(s, id) by {
        let k = choose|k: int| 0 <= k < t.len() && (#[trigger] t[k]).id@ == id;
        assert(s[k].id@ == id);
    }
    assert forall|id: Seq<char>| contains_id(s, id) implies contains_id(t, id) && node_of(t, id)
        == moved(changes, node_of(s, id)) by {
        lemma_node_of(s, id);
        let k = idx_of(s, id);
        assert(t[k].id@ == id);
        lemma_node_of(t, id);
        assert(idx_of(t, id) == k);
    }
}

/// Inserting one item into a registry that stays sorted adds exactly its
/// id and keeps every other lookup.
proof fn lemma_insert_lookup(t: Seq<Node>, q: int, v: Node)
    requires
        0 <= q <= t.len(),
        ids_strictly_sorted(t.insert(q, v)),
    ensures
        contains_id(t.insert(q, v), v.id@),
        node_of(t.insert(q, v), v.id@) == v,
        forall|id: Seq<char>|
            id != v.id@ ==> (contains_id(t.insert(q, v), id) <==> contains_id(t, id)),
        forall|id: Seq<char>|
            id != v.id@ && contains_id(t, id) ==> node_of(t.insert(q, v), id) == node_of(t, id),
        ids_strictly_sorted(t),
{
    let s = t.insert(q, v);
    assert(s.len() == t.len() + 1);
    assert forall|k: int| 0 <= k < s.len() implies #[trigger] s[k] == (if k < q {
        t[k]
    } else if k == q {
        v
    } else {
        t[k - 1]
    }) by {}
    lemma_sorted_ids_unique(s);
    assert forall|a: int, b: int| 0 <= a < b < t.len() implies id_lt(
        #[trigger] t[a].id@,
        #[trigger] t[b].id@,
    ) by {
        let a2 = if a < q {
            a
        } else {
            a + 1
        };
        let b2 = if b < q {
            b
        } else {
            b + 1
        };
        assert(t[a] == s[a2]);
        assert(t[b] == s[b2]);
    }
    assert(s[q].id@ == v.id@);
    lemma_node_of(s, v.id@);
    lemma_sorted_ids_unique(t);
    assert forall|id: Seq<char>| id != v.id@ && contains_id(t, id) implies contains_id(s, id)
        && node_of(s, id) == node_of(t, id) by {
        lemma_node_of(t, id);
        let k = idx_of(t, id);
        if k < q {
            assert(s[k].id@ == id);
        } else {
            assert(s[k + 1].id@ == id);
        }
        lemma_node_of(s, id);
    }
    assert forall|id: Seq<char>| id != v.id@ && contains_id(s, id) implies contains_id(t, id) by {
        let k = choose|k: int| 0 <= k < s.len() && (#[trigger] s[k]).id@ == id;
        assert(k != q);
        if k < q {
            assert(t[k].id@ == id);
        } else {
            assert(t[k - 1].id@ == id);
        }
    }
}

impl GridEngine {
    /// Creates an engine over a fresh grid of the given size, with no
    /// items and no listeners. A zero row or column count gives the
    /// empty grid, with zero of both.
    pub fn new(rows: usize, cols: usize) -> (r: GridEngine)
        requires
            rows * cols <= usize::MAX,
        ensures
            r.wf(),
            r.nodes_seq().len() == 0,
            r.events_view().counter() == 0,
            r.events_view().listeners().len() == 0,
            r.events_view().fired_count() == 0,
            rows == 0 || cols == 0 ==> r.rows_count() == 0 && r.grid_view().width() == 0,
            rows > 0 && cols > 0 ==> r.rows_count() == rows && r.grid_view().width() == cols,
            forall|cx: int, cy: int| #[trigger] r.grid_view().cell_at(cx, cy) is None,
    {
        GridEngine {
            grid: InnerGrid::new(rows, cols),
            items: Vec::new(),
            pending_changes: Vec::new(),
            events: GridEvents::default(),
        }
    }

    /// Creates a node value for the given geometry.
    fn new_node(&mut self, id: String, x: usize, y: usize, w: usize, h: usize) -> (n: Node)
        ensures
            *final(self) == *old(self),
            n.id@ == id@ && n.x == x && n.y == y && n.w == w && n.h == h,
    {
        Node::new(id, x, y, w, h)
    }

    /// Schedules an addition in the pending change list.
    fn create_add_change(&mut self, node: Node)
        ensures
            final(self).pending_seq() == old(self).pending_seq().push(
                Change::Add(AddChangeData { value: node }),
            ),
            final(self).nodes_seq() == old(self).nodes_seq(),
            final(self).grid_view() == old(self).grid_view(),
            final(self).events == old(self).events,
    {
        self.pending_changes.push(Change::Add(AddChangeData { value: node }));
    }

    /// Schedules a removal in the pending change list.
    fn create_remove_change(&mut self, node: &Node)
        ensures
            final(self).pending_seq() == old(self).pending_seq().push(
                Change::Remove(RemoveChangeData { value: *node }),
            ),
            final(self).nodes_seq() == old(self).nodes_seq(),
            final(self).grid_view() == old(self).grid_view(),
            final(self).events == old(self).events,
    {
        self.pending_changes.push(Change::Remove(RemoveChangeData { value: node.clone() }));
    }

    /// The registered nodes, in ascending id order.
    pub fn get_nodes(&self) -> (r: Vec<Node>)
        ensures
            r@ == self.nodes_seq(),
            self.wf() ==> ids_strictly_sorted(r@),
    {
        let mut r: Vec<Node> = Vec::new();
        let mut i: usize = 0;
        while i < self.items.len()
            invariant
                i <= self.items@.len(),
                r@.len() == i,
                forall|k: int| 0 <= k < i ==> #[trigger] r@[k] == self.items@[k],
            decreases self.items@.len() - i,
        {
            r.push(self.items[i].clone());
            i = i + 1;
        }
        proof {
            assert(r@ =~= self.nodes_seq());
        }
        r
    }

    /// A read-only reference to the live spatial grid.
    pub fn get_inner_grid(&self) -> (r: &InnerGrid)
        ensures
            *r == self.grid_view(),
    {
        &self.grid
    }

    /// Adds an item at the requested position and returns the committed
    /// node, which keeps exactly the requested geometry. Every occupant
    /// of the target rectangle is displaced strictly downward (cascading
    /// as needed, within a bounded growth of the rows); when the target
    /// rectangle is free, every other item keeps its exact place. Fails
    /// with `ItemAlreadyExists` on a duplicate id and with
    /// `OutOfBoundsAccess` when a non-empty rectangle sticks out of the
    /// grid's columns; a failed call leaves the engine unchanged and
    /// fires no event, a successful one fires exactly one. The numeric
    /// preconditions are machine limits: the rectangle and the rows it
    /// can cascade into must stay addressable.
    #[verifier::rlimit(100)]
    #[verifier::spinoff_prover]
    pub fn add_item(&mut self, id: String, x: usize, y: usize, w: usize, h: usize) -> (res: Result<
        Node,
        GridEngineError,
    >)
        requires
            old(self).wf(),
            x + w <= usize::MAX,
            y + h <= usize::MAX,
            w == 0 || h == 0 || y + h <= usize::MAX / 2,
            old(self).rows_count() <= usize::MAX / 4,
        ensures
            final(self).wf(),
            final(self).events_view().listeners() == old(self).events_view().listeners(),
            final(self).events_view().counter() == old(self).events_view().counter(),
            res is Ok ==> final(self).events_view().fired_count() == old(
                self,
            ).events_view().fired_count() + 1,
            res is Err ==> final(self).events_view() == old(self).events_view(),
            final(self).grid_view().width() == old(self).grid_view().width(),
            contains_id(old(self).nodes_seq(), id@) ==> {
                &&& res is Err
                &&& (res->Err_0 matches GridEngineError::Item(ItemError::ItemAlreadyExists {
                    id: eid,
                }) && eid@ == id@)
                &&& final(self).nodes_seq() == old(self).nodes_seq()
                &&& final(self).grid_view() == old(self).grid_view()
            },
            !contains_id(old(self).nodes_seq(), id@) && w > 0 && h > 0 && x + w > old(
                self,
            ).grid_view().width() ==> {
                &&& res is Err
                &&& res->Err_0 == GridEngineError::InnerGrid(
                    InnerGridError::OutOfBoundsAccess {
                        x: if x >= old(self).grid_view().width() {
                            x
                        } else {
                            old(self).grid_view().width() as usize
                        },
                        y,
                    },
                )
                &&& final(self).nodes_seq() == old(self).nodes_seq()
                &&& final(self).grid_view() == old(self).grid_view()
            },
            !contains_id(old(self).nodes_seq(), id@) && (w == 0 || h == 0 || x + w <= old(
                self,
            ).grid_view().width()) ==> {
                let added = res->Ok_0;
                &&& res is Ok
                &&& added.id@ == id@ && added.x == x && added.y == y && added.w == w && added.h
                    == h
                &&& final(self).nodes_seq().len() == old(self).nodes_seq().len() + 1
                &&& contains_id(final(self).nodes_seq(), id@)
                &&& node_of(final(self).nodes_seq(), id@) == added
                &&& forall|idn: Seq<char>|
                    idn != id@ ==> (contains_id(final(self).nodes_seq(), idn) <==> contains_id(
                        old(self).nodes_seq(),
                        idn,
                    ))
                &&& forall|idn: Seq<char>|
                    idn != id@ && contains_id(old(self).nodes_seq(), idn) ==> {
                        let before = node_of(old(self).nodes_seq(), idn);
                        let after = node_of(final(self).nodes_seq(), idn);
                        &&& after.id@ == idn
                        &&& after.w == before.w
                        &&& after.h == before.h
                        &&& after.x == before.x
                        &&& (after == before || after.y > before.y)
                    }
                &&& forall|idn: Seq<char>|
                    idn != id@ && #[trigger] occupies_rect(
                        old(self).grid_view(),
                        x as int,
                        y as int,
                        w as int,
                        h as int,
                        idn,
                    ) ==> contains_id(old(self).nodes_seq(), idn) && node_of(
                        final(self).nodes_seq(),
                        idn,
                    ).y > node_of(old(self).nodes_seq(), idn).y
                &&& (forall|idn: Seq<char>|
                    idn != id@ ==> !occupies_rect(
                        old(self).grid_view(),
                        x as int,
                        y as int,
                        w as int,
                        h as int,
                        idn,
                    )) ==> forall|idn: Seq<char>|
                    idn != id@ && contains_id(old(self).nodes_seq(), idn) ==> node_of(
                        final(self).nodes_seq(),
                        idn,
                    ) == node_of(old(self).nodes_seq(), idn)
                &&& final(self).rows_count() <= 3 * old(self).rows_count() + y + h
                &&& forall|cx: int, cy: int|
                    #![trigger final(self).grid_view().cell_at(cx, cy)]
                    !in_rect(added, cx, cy) && (forall|idn: Seq<char>|
                        #[trigger] contains_id(old(self).nodes_seq(), idn) && idn != id@
                            ==> !in_rect(node_of(old(self).nodes_seq(), idn), cx, cy) && !in_rect(
                            node_of(final(self).nodes_seq(), idn),
                            cx,
                            cy,
                        )) ==> final(self).grid_view().cell_at(cx, cy) == old(
                        self,
                    ).grid_view().cell_at(cx, cy)
                &&& (w > 0 && h > 0 ==> forall|cx: int, cy: int|
                    in_rect(added, cx, cy) ==> #[trigger] final(self).grid_view().cell_at(cx, cy)
                        == Some(id@))
            },
    {
        let ghost s0 = old(self).nodes_seq();
        let ghost w0 = old(self).grid_view().width();
        let ghost rows0 = old(self).rows_count();
        if let Some(_) = find_index(&self.items, &id) {
            return Err(GridEngineError::Item(ItemError::ItemAlreadyExists { id }));
        }
        let node = self.new_node(id, x, y, w, h);
        let node_id = node.id.clone();
        let mut scratch = self.grid.duplicate();
        let ghost scratch0 = scratch;
        proof {
            assert forall|cx: int, cy: int| #[trigger]
                scratch0.cell_at(cx, cy) == self.grid_view().cell_at(cx, cy) by {}
            lemma_consistent_same_cells(self.grid_view(), scratch0, s0);
        }
        match self.handle_collision(&node, x, y, &mut scratch) {
            Ok(()) => {},
            Err(e) => {
                return Err(GridEngineError::InnerGrid(e));
            },
        }
        let ghost cascades = self.pending_seq();
        self.create_add_change(node);
        let mut changes: Vec<Change> = Vec::new();
        core::mem::swap(&mut self.pending_changes, &mut changes);
        let ghost v = Node { id: node_id, x, y, w, h };
        proof {
            // the batch: the cascade moves, then the addition
            assert(changes@.last() == Change::Add(AddChangeData { value: v }));
            assert(plan_shaped(changes@, s0, w0)) by {
                assert forall|k: int| 0 <= k < changes@.len() - 1 implies plan_move_ok(
                    s0,
                    w0,
                    #[trigger] changes@[k],
                ) by {
                    assert(changes@[k] == cascades[k]);
                }
                assert forall|k1: int, k2: int|
                    0 <= k1 < k2 < changes@.len() && (#[trigger] changes@[k1]) is Move && (
                #[trigger] changes@[k2]) is Move implies changes@[k1]->Move_0.new_value.id@
                    != changes@[k2]->Move_0.new_value.id@ by {
                    assert(changes@[k1] == cascades[k1]);
                    if k2 < changes@.len() - 1 {
                        assert(changes@[k2] == cascades[k2]);
                        assert(move_id(cascades[k1]) != move_id(cascades[k2]));
                    }
                }
            };
        }
        match self.apply_changes(&changes) {
            Ok(()) => {},
            Err(e) => {
                proof {
                    assert(false);
                }
                return Err(e);
            },
        }
        proof {
            lemma_moved_all_lookup(changes@, s0);
            let q = choose|q: int|
                0 <= q <= moved_all(changes@, s0).len() && self.nodes_seq()
                    == #[trigger] moved_all(changes@, s0).insert(q, v);
            lemma_insert_lookup(moved_all(changes@, s0), q, v);
            assert(contains_id(self.nodes_seq(), v.id@));
            assert(node_of(self.nodes_seq(), v.id@) == v);
            assert forall|idn: Seq<char>| idn != v.id@ && contains_id(s0, idn) implies {
                let before = node_of(s0, idn);
                let after = node_of(self.nodes_seq(), idn);
                &&& after.id@ == idn
                &&& after.w == before.w
                &&& after.h == before.h
                &&& after.x == before.x
                &&& (after == before || after.y > before.y)
            } by {
                let before = node_of(s0, idn);
                lemma_node_of(s0, idn);
                assert(node_of(self.nodes_seq(), idn) == moved(changes@, before));
                lemma_planned_move_props(changes@, idn);
                if planned_move(changes@, idn) is Some {
                    let m = planned_move(changes@, idn)->Some_0;
                    let k = choose|k: int|
                        0 <= k < changes@.len() && (#[trigger] changes@[k]) is Move
                            && changes@[k]->Move_0.new_value == m;
                    assert(changes@[k] == cascades[k]);
                    assert(cascade_move_ok(cascades[k], v.id@, scratch0));
                    assert(plan_move_ok(s0, w0, cascades[k]));
                    assert(changes@[k]->Move_0.old_value == node_of(s0, idn));
                }
            }
            // occupants of the target rectangle were all displaced strictly down
            assert forall|idn: Seq<char>|
                idn != v.id@ && #[trigger] occupies_rect(
                    old(self).grid_view(),
                    x as int,
                    y as int,
                    w as int,
                    h as int,
                    idn,
                ) implies contains_id(s0, idn) && node_of(self.nodes_seq(), idn).y > node_of(
                s0,
                idn,
            ).y by {
                let (ox, oy): (int, int) = choose|ox: int, oy: int|
                    x <= ox < x + w && y <= oy < y + h && #[trigger] old(self).grid_view().cell_at(
                        ox,
                        oy,
                    ) == Some(idn);
                assert(scratch0.cell_at(ox, oy) == Some(idn));
                assert(contains_id(s0, idn));
                assert(occupies_rect(scratch0, x as int, y as int, w as int, h as int, idn));
                assert(pending_has_move_for(cascades, idn));
                let kc = choose|kc: int|
                    0 <= kc < cascades.len() && (#[trigger] cascades[kc]) is Move
                        && cascades[kc]->Move_0.new_value.id@ == idn;
                assert(changes@[kc] == cascades[kc]);
                assert(pending_has_move_for(changes@, idn));
                lemma_planned_move_props(changes@, idn);
                let m = planned_move(changes@, idn)->Some_0;
                let k = choose|k: int|
                    0 <= k < changes@.len() && (#[trigger] changes@[k]) is Move
                        && changes@[k]->Move_0.new_value == m;
                assert(changes@[k] == cascades[k]);
                assert(cascade_move_ok(cascades[k], v.id@, scratch0));
                assert(plan_move_ok(s0, w0, cascades[k]));
                lemma_node_of(s0, idn);
                assert(changes@[k]->Move_0.old_value == node_of(s0, idn));
                assert(node_of(self.nodes_seq(), idn) == m);
            }
            // with nothing to displace, every other item stays exactly put
            if forall|idn: Seq<char>|
                idn != v.id@ ==> !occupies_rect(
                    old(self).grid_view(),
                    x as int,
                    y as int,
                    w as int,
                    h as int,
                    idn,
                ) {
                assert forall|idq: Seq<char>| idq != v.id@ implies !occupies_rect(
                    scratch0,
                    x as int,
                    y as int,
                    w as int,
                    h as int,
                    idq,
                ) by {
                    if occupies_rect(scratch0, x as int, y as int, w as int, h as int, idq) {
                        let (ox, oy): (int, int) = choose|ox: int, oy: int|
                            x <= ox < x + w && y <= oy < y + h && #[trigger] scratch0.cell_at(
                                ox,
                                oy,
                            ) == Some(idq);
                        assert(old(self).grid_view().cell_at(ox, oy) == Some(idq));
                        assert(occupies_rect(
                            old(self).grid_view(),
                            x as int,
                            y as int,
                            w as int,
                            h as int,
                            idq,
                        ));
                    }
                }
                assert(cascades =~= Seq::<Change>::empty());
                assert(changes@ =~= Seq::<Change>::empty().push(
                    Change::Add(AddChangeData { value: v }),
                ));
                assert forall|idn: Seq<char>| idn != v.id@ && contains_id(s0, idn) implies node_of(
                    self.nodes_seq(),
                    idn,
                ) == node_of(s0, idn) by {
                    lemma_node_of(s0, idn);
                    lemma_planned_move_push(
                        Seq::<Change>::empty(),
                        Change::Add(AddChangeData { value: v }),
                        idn,
                    );
                    assert(planned_move(changes@, idn) is None);
                }
            }
            // the committed batch cannot grow the grid past a bounded depth
            assert(self.rows_count() <= 3 * rows0 + y + h) by {
                assert forall|k: int| 0 <= k < changes@.len() implies change_bottom(
                    #[trigger] changes@[k],
                ) <= 3 * rows0 + y + h by {
                    if k < changes@.len() - 1 {
                        assert(changes@[k] == cascades[k]);
                        assert(plan_move_ok(s0, w0, cascades[k]));
                        let d = cascades[k]->Move_0;
                        lemma_node_of(s0, d.old_value.id@);
                        let ix = idx_of(s0, d.old_value.id@);
                        assert(s0[ix] == d.old_value);
                        assert(rect_bottom(d.old_value) <= rows0);
                        assert(rect_bottom(d.new_value) <= vstd::math::max(
                            3 * rows0 as int,
                            2 * rows0 + h,
                        ));
                    }
                }
                lemma_changes_max_bottom_le(changes@, 3 * rows0 + y + h);
            };
            // cells away from the added rectangle and from every touched
            // item's rectangles keep their exact value
            assert forall|cx: int, cy: int|
                !in_rect(v, cx, cy) && (forall|idn: Seq<char>|
                    #[trigger] contains_id(s0, idn) && idn != v.id@ ==> !in_rect(
                        node_of(s0, idn),
                        cx,
                        cy,
                    ) && !in_rect(node_of(self.nodes_seq(), idn), cx, cy)) implies #[trigger] self.grid_view().cell_at(
                cx,
                cy,
            ) == old(self).grid_view().cell_at(cx, cy) by {
                assert forall|k: int| 0 <= k < changes@.len() implies outside_change(
                    #[trigger] changes@[k],
                    cx,
                    cy,
                ) by {
                    if k < changes@.len() - 1 {
                        assert(changes@[k] == cascades[k]);
                        assert(plan_move_ok(s0, w0, cascades[k]));
                        assert(cascade_move_ok(cascades[k], v.id@, scratch0));
                        let d = cascades[k]->Move_0;
                        let mid = d.new_value.id@;
                        assert(mid != v.id@);
                        assert(contains_id(s0, mid));
                        lemma_node_of(s0, mid);
                        assert(d.old_value == node_of(s0, mid));
                        assert(!in_rect(d.old_value, cx, cy));
                        assert(pending_has_move_for(changes@, mid));
                        lemma_planned_move_props(changes@, mid);
                        let m = planned_move(changes@, mid)->Some_0;
                        let k2 = choose|k2: int|
                            0 <= k2 < changes@.len() && (#[trigger] changes@[k2]) is Move
                                && changes@[k2]->Move_0.new_value == m;
                        assert(k2 == k) by {
                            if k2 != k {
                                assert(changes@[k2]->Move_0.new_value.id@ == mid);
                            }
                        };
                        assert(node_of(self.nodes_seq(), mid) == m);
                        assert(m == d.new_value);
                        assert(!in_rect(d.new_value, cx, cy));
                    }
                }
            }
        }
        let idx = match find_index(&self.items, &node_id) {
            Some(i) => i,
            None => {
                proof {
                    assert(false);
                }
                return Err(
                    GridEngineError::InnerGrid(InnerGridError::MismatchedGridItem { id: node_id }),
                );
            },
        };
        proof {
            lemma_sorted_ids_unique(self.nodes_seq());
            assert(self.nodes_seq()[idx as int] == node_of(self.nodes_seq(), node_id@));
        }
        let result = self.items[idx].clone();
        Ok(result)
    }

    /// Removes the item registered under `id`, clearing exactly the
    /// cells of its footprint that still hold its id, and returns its
    /// last known geometry. Fails with `ItemNotFound` for an unknown id
    /// and then leaves the engine unchanged.
    pub fn remove_item(&mut self, id: &str) -> (res: Result<Node, GridEngineError>)
        requires
            old(self).wf(),
        ensures
            final(self).wf(),
            final(self).events_view().listeners() == old(self).events_view().listeners(),
            final(self).events_view().counter() == old(self).events_view().counter(),
            res is Ok ==> final(self).events_view().fired_count() == old(
                self,
            ).events_view().fired_count() + 1,
            res is Err ==> final(self).events_view() == old(self).events_view(),
            final(self).grid_view().width() == old(self).grid_view().width(),
            !contains_id(old(self).nodes_seq(), id@) ==> {
                &&& res is Err
                &&& (res->Err_0 matches GridEngineError::Item(ItemError::ItemNotFound { id: eid })
                    && eid@ == id@)
                &&& final(self).nodes_seq() == old(self).nodes_seq()
                &&& final(self).grid_view() == old(self).grid_view()
            },
            contains_id(old(self).nodes_seq(), id@) ==> {
                let removed = node_of(old(self).nodes_seq(), id@);
                &&& res is Ok
                &&& res->Ok_0 == removed
                &&& final(self).nodes_seq() == old(self).nodes_seq().remove(
                    idx_of(old(self).nodes_seq(), id@),
                )
                &&& !contains_id(final(self).nodes_seq(), id@)
                &&& forall|idn: Seq<char>|
                    idn != id@ ==> (contains_id(final(self).nodes_seq(), idn) <==> contains_id(
                        old(self).nodes_seq(),
                        idn,
                    ))
                &&& forall|idn: Seq<char>|
                    idn != id@ && contains_id(old(self).nodes_seq(), idn) ==> node_of(
                        final(self).nodes_seq(),
                        idn,
                    ) == node_of(old(self).nodes_seq(), idn)
                &&& final(self).rows_count() == old(self).rows_count()
                &&& forall|cx: int, cy: int| #[trigger]
                    final(self).grid_view().cell_at(cx, cy) == if in_rect(removed, cx, cy) && old(
                        self,
                    ).grid_view().cell_at(cx, cy) == Some(id@) {
                        None
                    } else {
                        old(self).grid_view().cell_at(cx, cy)
                    }
            },
    {
        let ghost s0 = old(self).nodes_seq();
        let id_owned: String = id.to_owned();
        let idx = match find_index(&self.items, &id_owned) {
            Some(i) => i,
            None => {
                return Err(GridEngineError::Item(ItemError::ItemNotFound { id: id_owned }));
            },
        };
        let node = self.items[idx].clone();
        proof {
            lemma_sorted_ids_unique(s0);
            lemma_node_of(s0, id@);
            assert(node == node_of(s0, id@));
        }
        self.create_remove_change(&node);
        let mut changes: Vec<Change> = Vec::new();
        core::mem::swap(&mut self.pending_changes, &mut changes);
        proof {
            assert(changes@.len() == 1);
            assert(changes@.last() == Change::Remove(RemoveChangeData { value: node }));
            assert(plan_shaped(changes@, s0, old(self).grid_view().width()));
        }
        match self.apply_changes(&changes) {
            Ok(()) => {},
            Err(e) => {
                proof {
                    assert(false);
                }
                return Err(e);
            },
        }
        proof {
            lemma_lookup_remove(s0, idx_of(s0, id@));
        }
        Ok(node)
    }

    /// Moves the item registered under `id` to exactly `(new_x, new_y)`,
    /// displacing every occupant of the destination rectangle strictly
    /// downward (cascading as needed, within a bounded growth of the
    /// rows); when the destination is free, every other item keeps its
    /// exact place. Fails with `ItemNotFound` for an unknown id and with
    /// `OutOfBoundsAccess` when the non-empty rectangle would stick out
    /// of the grid's columns; a failed call leaves the engine unchanged
    /// and fires no event, a successful one fires exactly one. The
    /// numeric preconditions are machine limits, as for additions.
    #[verifier::rlimit(100)]
    #[verifier::spinoff_prover]
    pub fn move_item(&mut self, id: &str, new_x: usize, new_y: usize) -> (res: Result<
        (),
        GridEngineError,
    >)
        requires
            old(self).wf(),
            old(self).rows_count() <= usize::MAX / 4,
            contains_id(old(self).nodes_seq(), id@) ==> {
                let n = node_of(old(self).nodes_seq(), id@);
                &&& new_x + n.w <= usize::MAX
                &&& new_y + n.h <= usize::MAX
                &&& (n.w == 0 || n.h == 0 || new_y + n.h <= usize::MAX / 2)
            },
        ensures
            final(self).wf(),
            final(self).events_view().listeners() == old(self).events_view().listeners(),
            final(self).events_view().counter() == old(self).events_view().counter(),
            res is Ok ==> final(self).events_view().fired_count() == old(
                self,
            ).events_view().fired_count() + 1,
            res is Err ==> final(self).events_view() == old(self).events_view(),
            final(self).grid_view().width() == old(self).grid_view().width(),
            !contains_id(old(self).nodes_seq(), id@) ==> {
                &&& res is Err
                &&& (res->Err_0 matches GridEngineError::Item(ItemError::ItemNotFound { id: eid })
                    && eid@ == id@)
                &&& final(self).nodes_seq() == old(self).nodes_seq()
                &&& final(self).grid_view() == old(self).grid_view()
            },
            contains_id(old(self).nodes_seq(), id@) && node_of(old(self).nodes_seq(), id@).w > 0
                && node_of(old(self).nodes_seq(), id@).h > 0 && new_x + node_of(
                old(self).nodes_seq(),
                id@,
            ).w > old(self).grid_view().width() ==> {
                &&& res is Err
                &&& res->Err_0 == GridEngineError::InnerGrid(
                    InnerGridError::OutOfBoundsAccess {
                        x: if new_x >= old(self).grid_view().width() {
                            new_x
                        } else {
                            old(self).grid_view().width() as usize
                        },
                        y: new_y,
                    },
                )
                &&& final(self).nodes_seq() == old(self).nodes_seq()
                &&& final(self).grid_view() == old(self).grid_view()
            },
            contains_id(old(self).nodes_seq(), id@) && (node_of(old(self).nodes_seq(), id@).w == 0
                || node_of(old(self).nodes_seq(), id@).h == 0 || new_x + node_of(
                old(self).nodes_seq(),
                id@,
            ).w <= old(self).grid_view().width()) ==> {
                let before = node_of(old(self).nodes_seq(), id@);
                let after = node_of(final(self).nodes_seq(), id@);
                &&& res is Ok
                &&& final(self).nodes_seq().len() == old(self).nodes_seq().len()
                &&& forall|idn: Seq<char>|
                    contains_id(final(self).nodes_seq(), idn) <==> contains_id(
                        old(self).nodes_seq(),
                        idn,
                    )
                &&& after.id@ == id@ && after.x == new_x && after.y == new_y && after.w == before.w
                    && after.h == before.h
                &&& forall|idn: Seq<char>|
                    idn != id@ && contains_id(old(self).nodes_seq(), idn) ==> {
                        let b = node_of(old(self).nodes_seq(), idn);
                        let a = node_of(final(self).nodes_seq(), idn);
                        &&& a.id@ == idn
                        &&& a.w == b.w
                        &&& a.h == b.h
                        &&& a.x == b.x
                        &&& (a == b || a.y > b.y)
                    }
                &&& forall|idn: Seq<char>|
                    idn != id@ && #[trigger] occupies_rect(
                        old(self).grid_view(),
                        new_x as int,
                        new_y as int,
                        before.w as int,
                        before.h as int,
                        idn,
                    ) ==> contains_id(old(self).nodes_seq(), idn) && node_of(
                        final(self).nodes_seq(),
                        idn,
                    ).y > node_of(old(self).nodes_seq(), idn).y
                &&& (forall|idn: Seq<char>|
                    idn != id@ ==> !occupies_rect(
                        old(self).grid_view(),
                        new_x as int,
                        new_y as int,
                        before.w as int,
                        before.h as int,
                        idn,
                    )) ==> forall|idn: Seq<char>|
                    idn != id@ && contains_id(old(self).nodes_seq(), idn) ==> node_of(
                        final(self).nodes_seq(),
                        idn,
                    ) == node_of(old(self).nodes_seq(), idn)
                &&& final(self).rows_count() <= 3 * old(self).rows_count() + new_y + before.h
                &&& forall|cx: int, cy: int|
                    #![trigger final(self).grid_view().cell_at(cx, cy)]
                    !in_rect(before, cx, cy) && !in_rect(after, cx, cy) && (forall|idn: Seq<char>|
                        #[trigger] contains_id(old(self).nodes_seq(), idn) && idn != id@
                            ==> !in_rect(node_of(old(self).nodes_seq(), idn), cx, cy) && !in_rect(
                            node_of(final(self).nodes_seq(), idn),
                            cx,
                            cy,
                        )) ==> final(self).grid_view().cell_at(cx, cy) == old(
                        self,
                    ).grid_view().cell_at(cx, cy)
                &&& (before.w > 0 && before.h > 0 ==> forall|cx: int, cy: int|
                    in_rect(after, cx, cy) ==> #[trigger] final(self).grid_view().cell_at(cx, cy)
                        == Some(id@))
            },
    {
        let ghost s0 = old(self).nodes_seq();
        let ghost w0 = old(self).grid_view().width();
        let ghost rows0 = old(self).rows_count();
        let id_owned: String = id.to_owned();
        let idx = match find_index(&self.items, &id_owned) {
            Some(i) => i,
            None => {
                return Err(GridEngineError::Item(ItemError::ItemNotFound { id: id_owned }));
            },
        };
        let node = self.items[idx].clone();
        proof {
            lemma_sorted_ids_unique(s0);
            lemma_node_of(s0, id@);
            assert(node == node_of(s0, id@));
        }
        let mut scratch = self.grid.duplicate();
        let ghost scratch0 = scratch;
        proof {
            assert forall|cx: int, cy: int| #[trigger]
                scratch0.cell_at(cx, cy) == self.grid_view().cell_at(cx, cy) by {}
            lemma_consistent_same_cells(self.grid_view(), scratch0, s0);
            if node.w > 0 && node.h > 0 {
                assert(node.h <= old(self).rows_count());
            }
        }
        match self.create_move_change(node, new_x, new_y, &mut scratch) {
            Ok(()) => {},
            Err(e) => {
                return Err(GridEngineError::InnerGrid(e));
            },
        }
        let mut changes: Vec<Change> = Vec::new();
        core::mem::swap(&mut self.pending_changes, &mut changes);
        proof {
            assert(changes@.len() > 0);
            let lastc = changes@.last();
            assert(lastc is Move && lastc->Move_0.old_value == node_of(s0, id@)
                && lastc->Move_0.new_value.id@ == id@ && lastc->Move_0.new_value.x == new_x
                && lastc->Move_0.new_value.y == new_y && lastc->Move_0.new_value.w == node_of(
                s0,
                id@,
            ).w && lastc->Move_0.new_value.h == node_of(s0, id@).h);
            assert(plan_shaped(changes@, s0, w0));
        }
        match self.apply_changes(&changes) {
            Ok(()) => {},
            Err(e) => {
                proof {
                    assert(false);
                }
                return Err(e);
            },
        }
        proof {
            lemma_moved_all_lookup(changes@, s0);
            let lastc = changes@.last();
            let m = lastc->Move_0.new_value;
            // the item's own move is the only one scheduled for its id,
            // so the lookup lands on it
            assert(planned_move(changes@, id@) == Some(m)) by {
                assert(changes@.take(changes@.len() - 1).push(lastc) =~= changes@);
                lemma_planned_move_push(changes@.take(changes@.len() - 1), lastc, id@);
                lemma_planned_move_props(changes@.take(changes@.len() - 1), id@);
                if pending_has_move_for(changes@.take(changes@.len() - 1), id@) {
                    let k = choose|k: int|
                        0 <= k < changes@.take(changes@.len() - 1).len() && (#[trigger] changes@.take(
                            changes@.len() - 1,
                        )[k]) is Move && changes@.take(changes@.len() - 1)[k]->Move_0.new_value.id@
                            == id@;
                    assert(cascade_move_ok(changes@[k], id@, scratch0));
                    assert(false);
                }
            };
            assert(node_of(self.nodes_seq(), id@) == m);
            assert forall|idn: Seq<char>| idn != id@ && contains_id(s0, idn) implies {
                let b = node_of(s0, idn);
                let a = node_of(self.nodes_seq(), idn);
                &&& a.id@ == idn
                &&& a.w == b.w
                &&& a.h == b.h
                &&& a.x == b.x
                &&& (a == b || a.y > b.y)
            } by {
                let b = node_of(s0, idn);
                lemma_node_of(s0, idn);
                assert(node_of(self.nodes_seq(), idn) == moved(changes@, b));
                lemma_planned_move_props(changes@, idn);
                if planned_move(changes@, idn) is Some {
                    let m2 = planned_move(changes@, idn)->Some_0;
                    let k = choose|k: int|
                        0 <= k < changes@.len() && (#[trigger] changes@[k]) is Move
                            && changes@[k]->Move_0.new_value == m2;
                    assert(k < changes@.len() - 1) by {
                        if k == changes@.len() - 1 {
                            assert(m2.id@ == id@);
                        }
                    };
                    assert(cascade_move_ok(changes@[k], id@, scratch0));
                    assert(plan_move_ok(s0, w0, changes@[k]));
                    assert(changes@[k]->Move_0.old_value == node_of(s0, idn));
                }
            }
            let ghost bh = node_of(s0, id@).h;
            let ghost bw = node_of(s0, id@).w;
            // occupants of the destination rectangle were all displaced
            // strictly down
            assert forall|idn: Seq<char>|
                idn != id@ && #[trigger] occupies_rect(
                    old(self).grid_view(),
                    new_x as int,
                    new_y as int,
                    bw as int,
                    bh as int,
                    idn,
                ) implies contains_id(s0, idn) && node_of(self.nodes_seq(), idn).y > node_of(
                s0,
                idn,
            ).y by {
                let (ox, oy): (int, int) = choose|ox: int, oy: int|
                    new_x <= ox < new_x + bw && new_y <= oy < new_y + bh && #[trigger] old(
                        self,
                    ).grid_view().cell_at(ox, oy) == Some(idn);
                assert(scratch0.cell_at(ox, oy) == Some(idn));
                assert(contains_id(s0, idn));
                assert(occupies_rect(
                    scratch0,
                    new_x as int,
                    new_y as int,
                    bw as int,
                    bh as int,
                    idn,
                ));
                assert(pending_has_move_for(changes@, idn));
                lemma_planned_move_props(changes@, idn);
                let m2 = planned_move(changes@, idn)->Some_0;
                let k = choose|k: int|
                    0 <= k < changes@.len() && (#[trigger] changes@[k]) is Move
                        && changes@[k]->Move_0.new_value == m2;
                assert(k < changes@.len() - 1) by {
                    if k == changes@.len() - 1 {
                        assert(m2.id@ == id@);
                    }
                };
                assert(cascade_move_ok(changes@[k], id@, scratch0));
                assert(plan_move_ok(s0, w0, changes@[k]));
                lemma_node_of(s0, idn);
                assert(changes@[k]->Move_0.old_value == node_of(s0, idn));
                assert(node_of(self.nodes_seq(), idn) == m2);
            }
            // with nothing to displace, only the moved item changes
            if forall|idn: Seq<char>|
                idn != id@ ==> !occupies_rect(
                    old(self).grid_view(),
                    new_x as int,
                    new_y as int,
                    bw as int,
                    bh as int,
                    idn,
                ) {
                assert forall|idq: Seq<char>| idq != id@ implies !occupies_rect(
                    scratch0,
                    new_x as int,
                    new_y as int,
                    bw as int,
                    bh as int,
                    idq,
                ) by {
                    if occupies_rect(
                        scratch0,
                        new_x as int,
                        new_y as int,
                        bw as int,
                        bh as int,
                        idq,
                    ) {
                        let (ox, oy): (int, int) = choose|ox: int, oy: int|
                            new_x <= ox < new_x + bw && new_y <= oy < new_y + bh
                                && #[trigger] scratch0.cell_at(ox, oy) == Some(idq);
                        assert(old(self).grid_view().cell_at(ox, oy) == Some(idq));
                        assert(occupies_rect(
                            old(self).grid_view(),
                            new_x as int,
                            new_y as int,
                            bw as int,
                            bh as int,
                            idq,
                        ));
                    }
                }
                assert(changes@.len() == 1);
                assert(changes@ =~= Seq::<Change>::empty().push(changes@.last()));
                assert forall|idn: Seq<char>| idn != id@ && contains_id(s0, idn) implies node_of(
                    self.nodes_seq(),
                    idn,
                ) == node_of(s0, idn) by {
                    lemma_node_of(s0, idn);
                    lemma_planned_move_push(Seq::<Change>::empty(), changes@.last(), idn);
                    assert(planned_move(changes@, idn) is None);
                }
            }
            // the committed batch cannot grow the grid past a bounded depth
            assert(self.rows_count() <= 3 * rows0 + new_y + bh) by {
                assert forall|k: int| 0 <= k < changes@.len() implies change_bottom(
                    #[trigger] changes@[k],
                ) <= 3 * rows0 + new_y + bh by {
                    let d = changes@[k]->Move_0;
                    assert(plan_move_ok(s0, w0, changes@[k]));
                    lemma_node_of(s0, d.old_value.id@);
                    let ix = idx_of(s0, d.old_value.id@);
                    assert(s0[ix] == d.old_value);
                    assert(rect_bottom(d.old_value) <= rows0);
                    assert(rect_bottom(d.new_value) <= vstd::math::max(
                        vstd::math::max(3 * rows0 as int, 2 * rows0 + bh),
                        new_y + bh,
                    ));
                }
                lemma_changes_max_bottom_le(changes@, 3 * rows0 + new_y + bh);
            };
            // cells away from the item's two rectangles and from every
            // touched item's rectangles keep their exact value
            assert forall|cx: int, cy: int|
                !in_rect(node_of(s0, id@), cx, cy) && !in_rect(m, cx, cy) && (forall|
                    idn: Seq<char>,
                |
                    #[trigger] contains_id(s0, idn) && idn != id@ ==> !in_rect(
                        node_of(s0, idn),
                        cx,
                        cy,
                    ) && !in_rect(node_of(self.nodes_seq(), idn), cx, cy)) implies #[trigger] self.grid_view().cell_at(
                cx,
                cy,
            ) == old(self).grid_view().cell_at(cx, cy) by {
                assert forall|k: int| 0 <= k < changes@.len() implies outside_change(
                    #[trigger] changes@[k],
                    cx,
                    cy,
                ) by {
                    let d = changes@[k]->Move_0;
                    assert(plan_move_ok(s0, w0, changes@[k]));
                    if k == changes@.len() - 1 {
                        assert(d.old_value == node_of(s0, id@));
                        assert(d.new_value == m);
                    } else {
                        assert(cascade_move_ok(changes@[k], id@, scratch0));
                        let mid = d.new_value.id@;
                        assert(mid != id@);
                        assert(contains_id(s0, mid));
                        lemma_node_of(s0, mid);
                        assert(d.old_value == node_of(s0, mid));
                        assert(!in_rect(d.old_value, cx, cy));
                        assert(pending_has_move_for(changes@, mid));
                        lemma_planned_move_props(changes@, mid);
                        let m2 = planned_move(changes@, mid)->Some_0;
                        let k2 = choose|k2: int|
                            0 <= k2 < changes@.len() && (#[trigger] changes@[k2]) is Move
                                && changes@[k2]->Move_0.new_value == m2;
                        assert(k2 == k) by {
                            if k2 != k {
                                assert(changes@[k2]->Move_0.new_value.id@ == mid);
                            }
                        };
                        assert(node_of(self.nodes_seq(), mid) == m2);
                        assert(m2 == d.new_value);
                        assert(!in_rect(d.new_value, cx, cy));
                    }
                }
            }
        }
        Ok(())
    }
}

/// Reading the nodes is idempotent: with no mutation between them, two
/// reads of the same engine yield the same id-ordered sequence.
pub proof fn lemma_get_nodes_idempotent(e: GridEngine, r1: Seq<Node>, r2: Seq<Node>)
    requires
        r1 == e.nodes_seq(),
        r2 == e.nodes_seq(),
    ensures
        r1 == r2,
{
}

/// The grid/registry consistency invariant is part of engine
/// well-formedness, which every public operation reestablishes: in a
/// well-formed engine every cell holding an id lies inside the
/// rectangle registered for that id, and the registry is strictly
/// id-ordered.
pub proof fn lemma_wf_consistency(e: GridEngine)
    requires
        e.wf(),
    ensures
        consistent(e.grid_view(), e.nodes_seq()),
        ids_strictly_sorted(e.nodes_seq()),
{
}

/// Consistency survives any step that only clears or keeps cells.
proof fn lemma_consistent_same_cells_weak(g0: InnerGrid, g1: InnerGrid, items: Seq<Node>)
    requires
        consistent(g0, items),
        forall|cx: int, cy: int| (#[trigger] g1.cell_at(cx, cy)) is Some ==> g1.cell_at(cx, cy)
            == g0.cell_at(cx, cy),
    ensures
        consistent(g1, items),
{
    assert forall|cx: int, cy: int| (#[trigger] g1.cell_at(cx, cy)) is Some implies {
        let id2 = g1.cell_at(cx, cy)->Some_0;
        contains_id(items, id2) && in_rect(node_of(items, id2), cx, cy)
    } by {
        assert(g1.cell_at(cx, cy) == g0.cell_at(cx, cy));
    }
}

/// Where the items of a registry stand after the scheduled moves.
pub open spec fn moved_all(changes: Seq<Change>, s: Seq<Node>) -> Seq<Node> {
    Seq::new(s.len(), |i: int| moved(changes, s[i]))
}

/// How one more change extends the first-scheduled-destination lookup:
/// an earlier destination still wins, otherwise a matching move decides.
proof fn lemma_planned_move_push(s: Seq<Change>, ch: Change, id: Seq<char>)
    ensures
        planned_move(s.push(ch), id) == if planned_move(s, id) is Some {
            planned_move(s, id)
        } else if ch is Move && ch->Move_0.new_value.id@ == id {
            Some(ch->Move_0.new_value)
        } else {
            None
        },
    decreases s.len(),
{
    reveal_with_fuel(planned_move, 4);
    if s.len() == 0 {
        assert(s.push(ch)[0] == ch);
        assert(s.push(ch).drop_first() =~= Seq::<Change>::empty());
    } else {
        assert(s.push(ch)[0] == s[0]);
        assert(s.push(ch).drop_first() =~= s.drop_first().push(ch));
        lemma_planned_move_push(s.drop_first(), ch, id);
    }
}

/// A destination is scheduled exactly when some move carries the id, and
/// it is then one of the scheduled new values, under the id it is for.
proof fn lemma_planned_move_props(s: Seq<Change>, id: Seq<char>)
    ensures
        planned_move(s, id) is Some <==> pending_has_move_for(s, id),
        planned_move(s, id) matches Some(m) ==> m.id@ == id && exists|k: int|
            0 <= k < s.len() && (#[trigger] s[k]) is Move && s[k]->Move_0.new_value == m,
    decreases s.len(),
{
    if s.len() > 0 {
        lemma_planned_move_props(s.drop_first(), id);
        if planned_move(s, id) is Some {
            if s[0] is Move && s[0]->Move_0.new_value.id@ == id {
            } else {
                let k = choose|k: int|
                    0 <= k < s.drop_first().len() && (#[trigger] s.drop_first()[k]) is Move
                        && s.drop_first()[k]->Move_0.new_value == planned_move(s, id)->Some_0;
                assert(s[k + 1] == s.drop_first()[k]);
            }
        }
        if pending_has_move_for(s, id) && !(s[0] is Move && s[0]->Move_0.new_value.id@ == id) {
            let k = choose|k: int|
                0 <= k < s.len() && (#[trigger] s[k]) is Move && s[k]->Move_0.new_value.id@ == id;
            assert(s.drop_first()[k - 1] == s[k]);
            assert(pending_has_move_for(s.drop_first(), id));
        }
    }
}

/// Replaces the item at a position by a new value.
fn registry_replace(items: &mut Vec<Node>, i: usize, node: Node)
    requires
        i < old(items)@.len(),
    ensures
        final(items)@ == old(items)@.update(i as int, node),
{
    let _removed = items.remove(i);
    items.insert(i, node);
    proof {
        assert(items@ =~= old(items)@.update(i as int, node));
    }
}

/// A valid addition: a fresh id whose rectangle stays in machine range
/// and fits the columns whenever it occupies cells.
pub open spec fn plan_add_ok(items: Seq<Node>, width: nat, n: Node) -> bool {
    &&& !contains_id(items, n.id@)
    &&& n.x + n.w <= usize::MAX
    &&& n.y + n.h <= usize::MAX
    &&& (n.w > 0 && n.h > 0 ==> n.x + n.w <= width)
}

/// A valid removal: exactly the registered item.
pub open spec fn plan_remove_ok(items: Seq<Node>, n: Node) -> bool {
    &&& contains_id(items, n.id@)
    &&& n == node_of(items, n.id@)
}

/// The change batches one public call commits: scheduled moves for
/// distinct ids, possibly followed by one addition, or one removal
/// alone.
pub open spec fn plan_shaped(changes: Seq<Change>, items: Seq<Node>, width: nat) -> bool {
    &&& forall|k: int|
        0 <= k < changes.len() - 1 ==> plan_move_ok(items, width, #[trigger] changes[k])
    &&& forall|k1: int, k2: int|
        0 <= k1 < k2 < changes.len() && (#[trigger] changes[k1]) is Move && (
        #[trigger] changes[k2]) is Move ==> changes[k1]->Move_0.new_value.id@
            != changes[k2]->Move_0.new_value.id@
    &&& changes.len() > 0 ==> {
        let lastc = changes.last();
        ||| plan_move_ok(items, width, lastc)
        ||| (lastc is Add && plan_add_ok(items, width, lastc->Add_0.value))
        ||| (changes.len() == 1 && lastc is Remove && plan_remove_ok(
            items,
            lastc->Remove_0.value,
        ))
    }
}

/// Replacing an item by one with the same id keeps the order and remaps
/// only that id's lookup.
proof fn lemma_lookup_update(s: Seq<Node>, i: int, n: Node)
    requires
        ids_strictly_sorted(s),
        0 <= i < s.len(),
        n.id@ == s[i].id@,
    ensures
        ids_strictly_sorted(s.update(i, n)),
        forall|id: Seq<char>| contains_id(s.update(i, n), id) <==> contains_id(s, id),
        forall|id: Seq<char>|
            contains_id(s, id) ==> node_of(s.update(i, n), id) == if id == n.id@ {
                n
            } else {
                node_of(s, id)
            },
        contains_id(s, n.id@),
        idx_of(s, n.id@) == i,
{
    lemma_sorted_ids_unique(s);
    let t = s.update(i, n);
    assert forall|a: int, b: int| 0 <= a < b < t.len() implies id_lt(
        #[trigger] t[a].id@,
        #[trigger] t[b].id@,
    ) by {
        assert(t[a].id@ == s[a].id@);
        assert(t[b].id@ == s[b].id@);
    }
    assert(s[i].id@ == n.id@);
    lemma_node_of(s, n.id@);
    assert forall|id: Seq<char>| contains_id(t, id) implies contains_id(s, id) by {
        let k = choose|k: int| 0 <= k < t.len() && (#[trigger] t[k]).id@ == id;
        assert(s[k].id@ == id);
    }
    assert forall|id: Seq<char>| contains_id(s, id) implies contains_id(t, id) by {
        let k = choose|k: int| 0 <= k < s.len() && (#[trigger] s[k]).id@ == id;
        assert(t[k].id@ == id);
    }
    lemma_sorted_ids_unique(t);
    assert forall|id: Seq<char>| contains_id(s, id) implies node_of(t, id) == (if id == n.id@ {
        n
    } else {
        node_of(s, id)
    }) by {
        lemma_node_of(s, id);
        lemma_node_of(t, id);
        let k = idx_of(s, id);
        assert(t[k].id@ == id);
        assert(idx_of(t, id) == k);
        if id != n.id@ {
            assert(k != i);
        }
    }
}

/// Removing the item at a position keeps the order, forgets exactly its
/// id, and keeps every other lookup.
proof fn lemma_lookup_remove(s: Seq<Node>, i: int)
    requires
        ids_strictly_sorted(s),
        0 <= i < s.len(),
    ensures
        ids_strictly_sorted(s.remove(i)),
        !contains_id(s.remove(i), s[i].id@),
        forall|id: Seq<char>|
            id != s[i].id@ ==> (contains_id(s.remove(i), id) <==> contains_id(s, id)),
        forall|id: Seq<char>|
            id != s[i].id@ && contains_id(s, id) ==> node_of(s.remove(i), id) == node_of(s, id),
{
    lemma_sorted_ids_unique(s);
    let t = s.remove(i);
    assert forall|a: int, b: int| 0 <= a < b < t.len() implies id_lt(
        #[trigger] t[a].id@,
        #[trigger] t[b].id@,
    ) by {
        assert(t[a] == if a < i {
            s[a]
        } else {
            s[a + 1]
        });
        assert(t[b] == if b < i {
            s[b]
        } else {
            s[b + 1]
        });
    }
    lemma_sorted_ids_unique(t);
    assert forall|k: int| 0 <= k < t.len() implies (#[trigger] t[k]).id@ != s[i].id@ by {
        assert(t[k] == if k < i {
            s[k]
        } else {
            s[k + 1]
        });
    }
    assert forall|id: Seq<char>| id != s[i].id@ && contains_id(s, id) implies contains_id(t, id)
        && node_of(t, id) == node_of(s, id) by {
        lemma_node_of(s, id);
        let k = idx_of(s, id);
        assert(k != i);
        if k < i {
            assert(t[k] == s[k]);
        } else {
            assert(t[k - 1] == s[k]);
        }
        lemma_node_of(t, id);
    }
    assert forall|id: Seq<char>| id != s[i].id@ && contains_id(t, id) implies contains_id(
        s,
        id,
    ) by {
        let k = choose|k: int| 0 <= k < t.len() && (#[trigger] t[k]).id@ == id;
        assert(t[k] == if k < i {
            s[k]
        } else {
            s[k + 1]
        });
    }
}

/// Inserting a fresh id at its ordered position keeps the order, adds
/// exactly that id, and keeps every other lookup.
proof fn lemma_lookup_insert(s: Seq<Node>, p: int, n: Node)
    requires
        ids_strictly_sorted(s),
        !contains_id(s, n.id@),
        0 <= p <= s.len(),
        forall|k: int| 0 <= k < p ==> id_lt((#[trigger] s[k]).id@, n.id@),
        forall|k: int| p <= k < s.len() ==> id_lt(n.id@, (#[trigger] s[k]).id@),
    ensures
        ids_strictly_sorted(s.insert(p, n)),
        contains_id(s.insert(p, n), n.id@),
        node_of(s.insert(p, n), n.id@) == n,
        forall|id: Seq<char>|
            id != n.id@ ==> (contains_id(s.insert(p, n), id) <==> contains_id(s, id)),
        forall|id: Seq<char>|
            id != n.id@ && contains_id(s, id) ==> node_of(s.insert(p, n), id) == node_of(s, id),
{
    let t = s.insert(p, n);
    assert(t.len() == s.len() + 1);
    assert forall|k: int| 0 <= k < t.len() implies #[trigger] t[k] == (if k < p {
        s[k]
    } else if k == p {
        n
    } else {
        s[k - 1]
    }) by {}
    assert forall|a: int, b: int| 0 <= a < b < t.len() implies id_lt(
        #[trigger] t[a].id@,
        #[trigger] t[b].id@,
    ) by {}
    lemma_sorted_ids_unique(t);
    assert(t[p].id@ == n.id@);
    lemma_node_of(t, n.id@);
    assert forall|id: Seq<char>| id != n.id@ && contains_id(s, id) implies contains_id(t, id)
        && node_of(t, id) == node_of(s, id) by {
        lemma_node_of(s, id);
        let k = idx_of(s, id);
        if k < p {
            assert(t[k].id@ == id);
        } else {
            assert(t[k + 1].id@ == id);
        }
        lemma_node_of(t, id);
    }
    assert forall|id: Seq<char>| id != n.id@ && contains_id(t, id) implies contains_id(s, id) by {
        let k = choose|k: int| 0 <= k < t.len() && (#[trigger] t[k]).id@ == id;
        assert(k != p);
        if k < p {
            assert(s[k].id@ == id);
        } else {
            assert(s[k - 1].id@ == id);
        }
    }
}

/// Inserts a node whose id is not yet registered, at its place in the
/// registry order.
fn registry_insert(items: &mut Vec<Node>, node: Node)
    requires
        ids_strictly_sorted(old(items)@),
        !contains_id(old(items)@, node.id@),
    ensures
        ids_strictly_sorted(final(items)@),
        contains_id(final(items)@, node.id@),
        node_of(final(items)@, node.id@) == node,
        forall|id: Seq<char>|
            id != node.id@ ==> (contains_id(final(items)@, id) <==> contains_id(old(items)@, id)),
        forall|id: Seq<char>|
            id != node.id@ && contains_id(old(items)@, id) ==> node_of(final(items)@, id)
                == node_of(old(items)@, id),
        exists|p: int|
            0 <= p <= old(items)@.len() && final(items)@ == #[trigger] old(items)@.insert(p, node),
{
    let ghost s0 = items@;
    let mut p: usize = 0;
    while p < items.len() && id_lt_exec(&items[p].id, &node.id)
        invariant
            p <= items@.len(),
            items@ == s0,
            ids_strictly_sorted(s0),
            !contains_id(s0, node.id@),
            forall|k: int| 0 <= k < p ==> id_lt((#[trigger] s0[k]).id@, node.id@),
        decreases items@.len() - p,
    {
        p = p + 1;
    }
    proof {
        lemma_sorted_ids_unique(s0);
        assert forall|k: int| p <= k < s0.len() implies id_lt(node.id@, (#[trigger] s0[k]).id@) by {
            assert(s0[p as int].id@ != node.id@) by {
                if s0[p as int].id@ == node.id@ {
                    assert(contains_id(s0, node.id@));
                }
            };
            lemma_id_lt_connected(s0[p as int].id@, node.id@);
            if k > p {
                lemma_id_lt_strict(node.id@, s0[p as int].id@, s0[k].id@);
            }
        }
        lemma_lookup_insert(s0, p as int, node);
    }
    items.insert(p, node);
}

/// Checks whether a move for this id is already pending.
fn pending_contains_move_id(pending: &Vec<Change>, id: &String) -> (r: bool)
    ensures
        r == pending_has_move_for(pending@, id@),
{
    let mut i: usize = 0;
    while i < pending.len()
        invariant
            i <= pending@.len(),
            forall|k: int|
                0 <= k < i ==> !((#[trigger] pending@[k]) is Move
                    && pending@[k]->Move_0.new_value.id@ == id@),
        decreases pending@.len() - i,
    {
        let hit = match &pending[i] {
            Change::Move(data) => data.new_value.id == *id,
            _ => false,
        };
        if hit {
            return true;
        }
        i = i + 1;
    }
    false
}

/// Whether some collected node already carries this id.
fn contains_node_id(v: &Vec<Node>, id: &String) -> (r: bool)
    ensures
        r == lists_id(v@, id@),
{
    let mut i: usize = 0;
    while i < v.len()
        invariant
            i <= v@.len(),
            forall|k: int| 0 <= k < i ==> (#[trigger] v@[k]).id@ != id@,
        decreases v@.len() - i,
    {
        if v[i].id == *id {
            return true;
        }
        i = i + 1;
    }
    false
}

} // verus!
