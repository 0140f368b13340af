//! The piece registry: live per-piece state, the drag state and the merged
//! groups, kept consistent by every operation.
use vstd::prelude::*;
use crate::descriptor::{PieceDescriptor, PieceStore, grid_adjacent, is_grid_adjacent};

verus! {

/// How far, per axis and in world pixels, two pieces may sit from their
/// correct relative offset and still lock together.
pub const MERGE_TOLERANCE: i64 = 10;

#[derive(Clone, Copy, Debug, PartialEq, Eq, Structural)]
pub struct PieceState {
    pub x: i64,
    pub y: i64,
    pub layer: usize,
    pub selected: bool,
    pub dragging: bool,
    /// The group the piece belongs to; a group is named by its founding piece.
    pub group: Option<usize>,
    /// Handle of the installed image, once its crop job was applied.
    pub texture: Option<u64>,
}

#[derive(Clone, Copy, Debug, PartialEq, Eq, Structural)]
pub enum BoardError {
    InvalidPieceIndex,
    /// A texture was already installed on the piece.
    DuplicateInstallation,
    /// The piece has no image yet and stays inert.
    NotReady,
}

pub open spec fn is_free(s: Seq<PieceState>, i: int) -> bool {
    s[i].group is None
}

/// `i` and `j` move as one: the same piece, or members of one group.
pub open spec fn same_unit(s: Seq<PieceState>, i: int, j: int) -> bool {
    i == j || (s[i].group is Some && s[i].group == s[j].group)
}

pub open spec fn abs_int(v: int) -> int {
    if v >= 0 { v } else { -v }
}

/// The pieces sit, within the tolerance, at the offset that their anchors
/// give them in the finished picture.
pub open spec fn aligned(s: Seq<PieceState>, d: Seq<PieceDescriptor>, a: int, b: int) -> bool {
    &&& abs_int((s[a].x - s[b].x) - (d[a].anchor_x - d[b].anchor_x)) <= MERGE_TOLERANCE
    &&& abs_int((s[a].y - s[b].y) - (d[a].anchor_y - d[b].anchor_y)) <= MERGE_TOLERANCE
}

/// Two free, grid-adjacent, aligned pieces lock into a new group.
pub open spec fn merge_ok(s: Seq<PieceState>, d: Seq<PieceDescriptor>, a: int, b: int) -> bool {
    &&& 0 <= a < s.len()
    &&& 0 <= b < s.len()
    &&& a != b
    &&& grid_adjacent(d[a], d[b])
    &&& is_free(s, a)
    &&& is_free(s, b)
    &&& aligned(s, d, a, b)
}

/// A free piece `p` joins the group of `m`, grid-adjacent and aligned to it.
pub open spec fn join_ok(s: Seq<PieceState>, d: Seq<PieceDescriptor>, p: int, m: int) -> bool {
    &&& 0 <= p < s.len()
    &&& 0 <= m < s.len()
    &&& p != m
    &&& grid_adjacent(d[p], d[m])
    &&& is_free(s, p)
    &&& s[m].group is Some
    &&& aligned(s, d, p, m)
}

/// Two free, grid-adjacent pieces: a candidate for a hint.
pub open spec fn hint_ok(s: Seq<PieceState>, d: Seq<PieceDescriptor>, a: int, b: int) -> bool {
    &&& 0 <= a < s.len()
    &&& 0 <= b < s.len()
    &&& a != b
    &&& is_free(s, a)
    &&& is_free(s, b)
    &&& grid_adjacent(d[a], d[b])
}

/// Some piece would lock on to `i` where it stands.
pub open spec fn can_lock(s: Seq<PieceState>, d: Seq<PieceDescriptor>, i: int) -> bool {
    exists|j: int| #[trigger] merge_ok(s, d, i, j) || join_ok(s, d, i, j)
}

/// Every group is named by a member, and has a second member.
pub open spec fn groups_wf(s: Seq<PieceState>) -> bool {
    &&& forall|p: int| #![trigger s[p].group] 0 <= p < s.len() && s[p].group is Some ==> {
        let g = s[p].group->0 as int;
        &&& 0 <= g < s.len()
        &&& s[g].group == Some(g as usize)
    }
    &&& forall|g: int| 0 <= g < s.len() && #[trigger] s[g].group == Some(g as usize) ==> exists|q: int|
        0 <= q < s.len() && q != g && #[trigger] s[q].group == Some(g as usize)
}

/// At most one unit is dragging, and all of it is.
pub open spec fn drag_wf(s: Seq<PieceState>) -> bool {
    &&& forall|i: int, j: int|
        0 <= i < s.len() && 0 <= j < s.len() && #[trigger] s[i].dragging && #[trigger] s[j].dragging
            ==> same_unit(s, i, j)
    &&& forall|i: int, j: int|
        0 <= i < s.len() && 0 <= j < s.len() && #[trigger] s[i].dragging && same_unit(s, i, j)
            ==> #[trigger] s[j].dragging
}

pub open spec fn board_wf(s: Seq<PieceState>, d: Seq<PieceDescriptor>) -> bool {
    &&& s.len() == d.len()
    &&& forall|i: int| 0 <= i < d.len() ==> (#[trigger] d[i]).index == i
    &&& groups_wf(s)
    &&& drag_wf(s)
}

/// The state in which a piece is first shown: at its place in the picture.
pub open spec fn initial_state(d: PieceDescriptor, i: int) -> PieceState {
    PieceState {
        x: d.anchor_x,
        y: d.anchor_y,
        layer: i as usize,
        selected: false,
        dragging: false,
        group: None,
        texture: None,
    }
}

/// Installing image `texture` on piece `i`: the new states, or the error.
pub open spec fn installed(s: Seq<PieceState>, i: int, texture: u64) -> Result<Seq<PieceState>, BoardError> {
    if !(0 <= i < s.len()) {
        Err(BoardError::InvalidPieceIndex)
    } else if s[i].texture is Some {
        Err(BoardError::DuplicateInstallation)
    } else {
        Ok(s.update(i, PieceState { texture: Some(texture), ..s[i] }))
    }
}

/// Whether a click on `i` is taken. A piece without an image is inert: a
/// click on it changes nothing. Locking does not look at images (a piece
/// locks on by where it lies), so such a piece can be part of a group and
/// move with it; that group is picked up and put down by a click on one of
/// its members that has an image.
pub open spec fn drag_outcome(s: Seq<PieceState>, i: int) -> Result<(), BoardError> {
    if !(0 <= i < s.len()) {
        Err(BoardError::InvalidPieceIndex)
    } else if s[i].texture is None {
        Err(BoardError::NotReady)
    } else {
        Ok(())
    }
}

/// After a click on `i`: its unit starts dragging and nothing else does, or,
/// if it was dragging, nothing is.
pub open spec fn toggled(s: Seq<PieceState>, i: int) -> Seq<PieceState> {
    Seq::new(s.len(), |j: int| PieceState { dragging: !s[i].dragging && same_unit(s, i, j), ..s[j] })
}

/// Every dragging piece stays within the coordinate range when moved by `(dx, dy)`.
pub open spec fn move_fits(s: Seq<PieceState>, dx: i64, dy: i64) -> bool {
    forall|j: int| 0 <= j < s.len() && #[trigger] s[j].dragging ==> {
        &&& i64::MIN <= s[j].x + dx <= i64::MAX
        &&& i64::MIN <= s[j].y + dy <= i64::MAX
    }
}

/// Every dragging piece moved by `(dx, dy)`.
pub open spec fn moved(s: Seq<PieceState>, dx: i64, dy: i64) -> Seq<PieceState> {
    Seq::new(
        s.len(),
        |j: int|
            if s[j].dragging {
                PieceState { x: (s[j].x + dx) as i64, y: (s[j].y + dy) as i64, ..s[j] }
            } else {
                s[j]
            },
    )
}

/// `a` and `b` founded a group named by the smaller of them.
pub open spec fn merged(s: Seq<PieceState>, a: int, b: int) -> Seq<PieceState> {
    let g = if a <= b { a } else { b };
    Seq::new(
        s.len(),
        |j: int|
            if j == a || j == b {
                PieceState {
                    group: Some(g as usize),
                    dragging: s[a].dragging || s[b].dragging,
                    ..s[j]
                }
            } else {
                s[j]
            },
    )
}

/// `p` joined the group of `m`; if either was dragging, all of the group is.
pub open spec fn joined(s: Seq<PieceState>, p: int, m: int) -> Seq<PieceState> {
    let flag = s[p].dragging || s[m].dragging;
    Seq::new(
        s.len(),
        |j: int|
            if j == p {
                PieceState { group: s[m].group, dragging: flag, ..s[j] }
            } else if s[j].group == s[m].group {
                PieceState { dragging: s[j].dragging || flag, ..s[j] }
            } else {
                s[j]
            },
    )
}

/// From `s` to `t` only groups changed, and they only grew.
pub open spec fn groups_grew(s: Seq<PieceState>, t: Seq<PieceState>) -> bool {
    &&& s.len() == t.len()
    &&& forall|j: int| 0 <= j < s.len() ==> {
        &&& (#[trigger] t[j]).x == s[j].x
        &&& t[j].y == s[j].y
        &&& t[j].layer == s[j].layer
        &&& t[j].selected == s[j].selected
        &&& t[j].texture == s[j].texture
        &&& (s[j].group is Some ==> t[j].group == s[j].group)
    }
}

/// `r` is the first hint pair in index order: the first piece that has a
/// free grid neighbour, with the first such neighbour; `None` when no pair of
/// free grid-adjacent pieces is left.
pub open spec fn first_hint(s: Seq<PieceState>, d: Seq<PieceDescriptor>, r: Option<(usize, usize)>) -> bool {
    match r {
        Some((a, b)) => {
            &&& hint_ok(s, d, a as int, b as int)
            &&& forall|a2: int, b2: int| a2 < a && #[trigger] hint_ok(s, d, a2, b2) ==> false
            &&& forall|b2: int| b2 < b && #[trigger] hint_ok(s, d, a as int, b2) ==> false
        },
        None => forall|a2: int, b2: int| #[trigger] hint_ok(s, d, a2, b2) ==> false,
    }
}

/// Only the hint pair `r` is selected.
pub open spec fn selected_only(s: Seq<PieceState>, r: Option<(usize, usize)>) -> Seq<PieceState> {
    Seq::new(
        s.len(),
        |j: int| PieceState {
            selected: match r {
                Some((a, b)) => j == a || j == b,
                None => false,
            },
            ..s[j]
        },
    )
}

/// Every piece that was free in `s` and is grouped in `t` ended up in the unit
/// of `i`, grid-adjacent and aligned (in `s`) to another member of it.
pub open spec fn locks_justified(s: Seq<PieceState>, t: Seq<PieceState>, d: Seq<PieceDescriptor>, i: int) -> bool {
    forall|j: int| 0 <= j < s.len() && is_free(s, j) && !is_free(t, j) ==> {
        &&& same_unit(t, i, j)
        &&& exists|m: int|
            0 <= m < s.len() && m != j && same_unit(t, i, m) && grid_adjacent(d[j], d[m])
                && #[trigger] aligned(s, d, j, m)
    }
}

proof fn lemma_unit_grows(a: Seq<PieceState>, b: Seq<PieceState>, i: int)
    requires
        groups_grew(a, b),
        0 <= i < a.len(),
    ensures
        forall|x: int| 0 <= x < a.len() && #[trigger] same_unit(a, i, x) ==> same_unit(b, i, x),
{
    assert forall|x: int| 0 <= x < a.len() && #[trigger] same_unit(a, i, x) implies same_unit(b, i, x) by {
        assert(b[i].group == a[i].group || a[i].group is None);
        assert(b[x].group == a[x].group || a[x].group is None);
    }
}

/// Carries the justification of earlier locks from `before` to `after`.
proof fn lemma_justified_carry(
    s0: Seq<PieceState>,
    before: Seq<PieceState>,
    after: Seq<PieceState>,
    d: Seq<PieceDescriptor>,
    i: int,
    x: int,
)
    requires
        0 <= i < s0.len(),
        0 <= x < s0.len(),
        groups_grew(s0, before),
        groups_grew(before, after),
        locks_justified(s0, before, d, i),
        is_free(s0, x),
        !is_free(before, x),
    ensures
        same_unit(after, i, x),
        exists|m: int|
            0 <= m < s0.len() && m != x && same_unit(after, i, m) && grid_adjacent(d[x], d[m])
                && #[trigger] aligned(s0, d, x, m),
{
    lemma_unit_grows(before, after, i);
    let m = choose|m: int|
        0 <= m < s0.len() && m != x && same_unit(before, i, m) && grid_adjacent(d[x], d[m])
            && #[trigger] aligned(s0, d, x, m);
    assert(same_unit(after, i, m));
}

proof fn lemma_aligned_in(s0: Seq<PieceState>, before: Seq<PieceState>, d: Seq<PieceDescriptor>, a: int, b: int)
    requires
        groups_grew(s0, before),
        0 <= a < s0.len(),
        0 <= b < s0.len(),
        aligned(before, d, a, b),
    ensures
        aligned(s0, d, a, b),
        aligned(s0, d, b, a),
{
    assert(before[a].x == s0[a].x && before[b].x == s0[b].x);
}

/// A merge of the free moved piece `i` with `j` keeps the locks justified.
proof fn lemma_merge_justified(s0: Seq<PieceState>, before: Seq<PieceState>, d: Seq<PieceDescriptor>, i: int, j: int)
    requires
        groups_grew(s0, before),
        locks_justified(s0, before, d, i),
        merge_ok(before, d, i, j),
    ensures
        locks_justified(s0, merged(before, i, j), d, i),
{
    let after = merged(before, i, j);
    lemma_aligned_in(s0, before, d, i, j);
    assert(groups_grew(before, after));
    assert forall|x: int| 0 <= x < s0.len() && is_free(s0, x) && !is_free(after, x) implies {
        &&& same_unit(after, i, x)
        &&& exists|m: int|
            0 <= m < s0.len() && m != x && same_unit(after, i, m) && grid_adjacent(d[x], d[m])
                && #[trigger] aligned(s0, d, x, m)
    } by {
        if x == i {
            assert(same_unit(after, i, j));
            assert(aligned(s0, d, x, j));
        } else if x == j {
            assert(same_unit(after, i, i));
            assert(aligned(s0, d, x, i));
        } else {
            lemma_justified_carry(s0, before, after, d, i, x);
        }
    }
}

/// The free moved piece `i` joining the group of `m` keeps the locks justified.
proof fn lemma_join_self_justified(s0: Seq<PieceState>, before: Seq<PieceState>, d: Seq<PieceDescriptor>, i: int, m: int)
    requires
        groups_grew(s0, before),
        locks_justified(s0, before, d, i),
        join_ok(before, d, i, m),
    ensures
        locks_justified(s0, joined(before, i, m), d, i),
{
    let after = joined(before, i, m);
    lemma_aligned_in(s0, before, d, i, m);
    assert(groups_grew(before, after));
    assert forall|x: int| 0 <= x < s0.len() && is_free(s0, x) && !is_free(after, x) implies {
        &&& same_unit(after, i, x)
        &&& exists|w: int|
            0 <= w < s0.len() && w != x && same_unit(after, i, w) && grid_adjacent(d[x], d[w])
                && #[trigger] aligned(s0, d, x, w)
    } by {
        if x == i {
            assert(same_unit(after, i, m));
            assert(aligned(s0, d, x, m));
        } else {
            lemma_justified_carry(s0, before, after, d, i, x);
        }
    }
}

/// A free piece `p` joining the group of `k`, a member of the moved unit,
/// keeps the locks justified.
proof fn lemma_join_other_justified(
    s0: Seq<PieceState>,
    before: Seq<PieceState>,
    d: Seq<PieceDescriptor>,
    i: int,
    k: int,
    p: int,
)
    requires
        0 <= i < s0.len(),
        groups_grew(s0, before),
        locks_justified(s0, before, d, i),
        same_unit(before, i, k),
        join_ok(before, d, p, k),
    ensures
        locks_justified(s0, joined(before, p, k), d, i),
{
    let after = joined(before, p, k);
    lemma_aligned_in(s0, before, d, p, k);
    assert(groups_grew(before, after));
    assert(same_unit(after, i, k));
    assert forall|x: int| 0 <= x < s0.len() && is_free(s0, x) && !is_free(after, x) implies {
        &&& same_unit(after, i, x)
        &&& exists|w: int|
            0 <= w < s0.len() && w != x && same_unit(after, i, w) && grid_adjacent(d[x], d[w])
                && #[trigger] aligned(s0, d, x, w)
    } by {
        if x == p {
            assert(same_unit(after, i, p));
            assert(aligned(s0, d, x, k));
        } else {
            lemma_justified_carry(s0, before, after, d, i, x);
        }
    }
}

/// Nothing more locks between `k` and `j`, in either direction.
pub open spec fn stuck(s: Seq<PieceState>, d: Seq<PieceDescriptor>, k: int, j: int) -> bool {
    !merge_ok(s, d, k, j) && !join_ok(s, d, k, j) && !join_ok(s, d, j, k)
}

/// No free piece fits against any member of the unit of `i` any more.
pub open spec fn settled(s: Seq<PieceState>, d: Seq<PieceDescriptor>, i: int) -> bool {
    forall|k: int, j: int| 0 <= k < s.len() && 0 <= j < s.len() && same_unit(s, i, k) ==> #[trigger] stuck(s, d, k, j)
}

/// The number of free pieces.
pub open spec fn free_count(s: Seq<PieceState>) -> nat
    decreases s.len(),
{
    if s.len() == 0 {
        0
    } else {
        free_count(s.drop_last()) + if s.last().group is None { 1nat } else { 0nat }
    }
}

/// Growing groups never frees a piece, and grouping free piece `j` lowers
/// the count.
proof fn lemma_free_count_grew(a: Seq<PieceState>, b: Seq<PieceState>, j: int)
    requires
        groups_grew(a, b),
    ensures
        free_count(b) <= free_count(a),
        0 <= j < a.len() && is_free(a, j) && !is_free(b, j) ==> free_count(b) < free_count(a),
    decreases a.len(),
{
    if a.len() > 0 {
        let a2 = a.drop_last();
        let b2 = b.drop_last();
        assert forall|x: int| 0 <= x < a2.len() implies {
            &&& (#[trigger] b2[x]).x == a2[x].x
            &&& b2[x].y == a2[x].y
            &&& b2[x].layer == a2[x].layer
            &&& b2[x].selected == a2[x].selected
            &&& b2[x].texture == a2[x].texture
            &&& (a2[x].group is Some ==> b2[x].group == a2[x].group)
        } by {
            assert(b[x] == b2[x] && a[x] == a2[x]);
        }
        lemma_free_count_grew(a2, b2, j);
        assert(b.last() == b[b.len() - 1]);
        assert(a.last() == a[a.len() - 1]);
    }
}

/// Justified locks from `s0` to `b` and from `b` to `c` make justified locks
/// from `s0` to `c`, when `b` and `c` share positions with `s0`.
proof fn lemma_justified_chain(
    s0: Seq<PieceState>,
    b: Seq<PieceState>,
    c: Seq<PieceState>,
    d: Seq<PieceDescriptor>,
    i: int,
)
    requires
        0 <= i < s0.len(),
        groups_grew(s0, b),
        groups_grew(b, c),
        locks_justified(s0, b, d, i),
        locks_justified(b, c, d, i),
    ensures
        locks_justified(s0, c, d, i),
{
    assert forall|x: int| 0 <= x < s0.len() && is_free(s0, x) && !is_free(c, x) implies {
        &&& same_unit(c, i, x)
        &&& exists|m: int|
            0 <= m < s0.len() && m != x && same_unit(c, i, m) && grid_adjacent(d[x], d[m])
                && #[trigger] aligned(s0, d, x, m)
    } by {
        if !is_free(b, x) {
            lemma_justified_carry(s0, b, c, d, i, x);
        } else {
            let m = choose|m: int|
                0 <= m < b.len() && m != x && same_unit(c, i, m) && grid_adjacent(d[x], d[m])
                    && #[trigger] aligned(b, d, x, m);
            assert(b[x].x == s0[x].x && b[m].x == s0[m].x);
            assert(aligned(s0, d, x, m));
        }
    }
}

/// A change that leaves every piece's group alone keeps the groups well formed.
proof fn lemma_same_groups_wf(s: Seq<PieceState>, t: Seq<PieceState>)
    requires
        groups_wf(s),
        s.len() == t.len(),
        forall|p: int| 0 <= p < s.len() ==> #[trigger] t[p].group == s[p].group,
    ensures
        groups_wf(t),
{
    assert forall|g: int| 0 <= g < t.len() && #[trigger] t[g].group == Some(g as usize) implies exists|q: int|
        0 <= q < t.len() && q != g && #[trigger] t[q].group == Some(g as usize) by {
        let q = choose|q: int| 0 <= q < s.len() && q != g && #[trigger] s[q].group == Some(g as usize);
        assert(t[q].group == Some(g as usize));
    }
}

proof fn lemma_grew_trans(a: Seq<PieceState>, b: Seq<PieceState>, c: Seq<PieceState>)
    requires
        groups_grew(a, b),
        groups_grew(b, c),
    ensures
        groups_grew(a, c),
{
    assert forall|j: int| 0 <= j < a.len() implies {
        &&& (#[trigger] c[j]).x == a[j].x
        &&& c[j].y == a[j].y
        &&& c[j].layer == a[j].layer
        &&& c[j].selected == a[j].selected
        &&& c[j].texture == a[j].texture
        &&& (a[j].group is Some ==> c[j].group == a[j].group)
    } by {
        assert(b[j].x == a[j].x);
        assert(c[j].x == b[j].x);
    }
}

pub struct Board {
    pieces: Vec<PieceState>,
    descriptors: Vec<PieceDescriptor>,
}

impl Board {
    pub closed spec fn states(&self) -> Seq<PieceState> {
        self.pieces@
    }

    pub closed spec fn descs(&self) -> Seq<PieceDescriptor> {
        self.descriptors@
    }

    pub open spec fn wf(&self) -> bool {
        board_wf(self.states(), self.descs())
    }

    /// A board with every piece free, still, unselected and untextured, at
    /// its place in the picture.
    pub fn from_descriptors(descriptors: &Vec<PieceDescriptor>) -> (r: Board)
        requires
            forall|i: int| 0 <= i < descriptors@.len() ==> (#[trigger] descriptors@[i]).index == i,
        ensures
            r.wf(),
            r.descs() == descriptors@,
            r.states().len() == descriptors@.len(),
            forall|i: int| 0 <= i < r.states().len() ==> #[trigger] r.states()[i] == initial_state(
                descriptors@[i],
                i,
            ),
    {
        let n = descriptors.len();
        let mut pieces: Vec<PieceState> = Vec::new();
        let mut descs: Vec<PieceDescriptor> = Vec::new();
        let mut i: usize = 0;
        while i < n
            invariant
                n == descriptors@.len(),
                i <= n,
                pieces@.len() == i,
                descs@ == descriptors@.take(i as int),
                forall|k: int| 0 <= k < i ==> #[trigger] pieces@[k] == initial_state(descriptors@[k], k),
            decreases n - i,
        {
            let d = descriptors[i];
            pieces.push(PieceState {
                x: d.anchor_x,
                y: d.anchor_y,
                layer: i,
                selected: false,
                dragging: false,
                group: None,
                texture: None,
            });
            descs.push(d);
            i = i + 1;
            proof {
                assert(descs@ =~= descriptors@.take(i as int));
            }
        }
        proof {
            assert(descs@ =~= descriptors@);
        }
        Board { pieces, descriptors: descs }
    }

    /// The board of a decomposed puzzle.
    pub fn new(store: &PieceStore) -> (r: Board)
        requires
            store.wf(),
        ensures
            r.wf(),
            r.descs() == store.descriptors@,
            r.states().len() == store.descriptors@.len(),
            forall|i: int| 0 <= i < r.states().len() ==> #[trigger] r.states()[i] == initial_state(
                store.descriptors@[i],
                i,
            ),
    {
        Board::from_descriptors(&store.descriptors)
    }

    pub fn len(&self) -> (r: usize)
        ensures
            r == self.states().len(),
    {
        self.pieces.len()
    }

    pub fn piece(&self, i: usize) -> (r: PieceState)
        requires
            i < self.states().len(),
        ensures
            r == self.states()[i as int],
    {
        self.pieces[i]
    }

    pub fn descriptor(&self, i: usize) -> (r: PieceDescriptor)
        requires
            i < self.descs().len(),
        ensures
            r == self.descs()[i as int],
    {
        self.descriptors[i]
    }

    /// Places piece `i` at `(x, y)`.
    pub fn set_position(&mut self, i: usize, x: i64, y: i64) -> (r: Result<(), BoardError>)
        requires
            old(self).wf(),
        ensures
            final(self).wf(),
            final(self).descs() == old(self).descs(),
            r is Err <==> i >= old(self).states().len(),
            r matches Err(e) ==> e == BoardError::InvalidPieceIndex && final(self).states() == old(self).states(),
            r is Ok ==> final(self).states() == old(self).states().update(
                i as int,
                PieceState { x, y, ..old(self).states()[i as int] },
            ),
    {
        if i >= self.pieces.len() {
            return Err(BoardError::InvalidPieceIndex);
        }
        let mut st = self.pieces[i];
        st.x = x;
        st.y = y;
        self.pieces.set(i, st);
        proof {
            let s = old(self).pieces@;
            let t = self.pieces@;
            assert forall|p: int| 0 <= p < t.len() implies t[p].group == s[p].group && t[p].dragging == s[p].dragging by {}
            lemma_same_groups_wf(s, t);
        }
        Ok(())
    }

    /// Installs the image handle `texture` on piece `i`; a piece takes one
    /// image only.
    pub fn install_texture(&mut self, i: usize, texture: u64) -> (r: Result<(), BoardError>)
        requires
            old(self).wf(),
        ensures
            final(self).wf(),
            final(self).descs() == old(self).descs(),
            match installed(old(self).states(), i as int, texture) {
                Ok(t) => r is Ok && final(self).states() == t,
                Err(e) => r == Err::<(), BoardError>(e) && final(self).states() == old(self).states(),
            },
    {
        if i >= self.pieces.len() {
            return Err(BoardError::InvalidPieceIndex);
        }
        if self.pieces[i].texture.is_some() {
            return Err(BoardError::DuplicateInstallation);
        }
        let mut st = self.pieces[i];
        st.texture = Some(texture);
        self.pieces.set(i, st);
        proof {
            let s = old(self).pieces@;
            let t = self.pieces@;
            assert forall|p: int| 0 <= p < t.len() implies t[p].group == s[p].group && t[p].dragging == s[p].dragging by {}
            lemma_same_groups_wf(s, t);
        }
        Ok(())
    }

    /// A click on piece `i`: starts carrying its unit, or puts it down.
    pub fn toggle_drag(&mut self, i: usize) -> (r: Result<(), BoardError>)
        requires
            old(self).wf(),
        ensures
            final(self).wf(),
            final(self).descs() == old(self).descs(),
            r == drag_outcome(old(self).states(), i as int),
            r is Err ==> final(self).states() == old(self).states(),
            r is Ok ==> final(self).states() == toggled(old(self).states(), i as int),
    {
        if i >= self.pieces.len() {
            return Err(BoardError::InvalidPieceIndex);
        }
        if self.pieces[i].texture.is_none() {
            return Err(BoardError::NotReady);
        }
        let start = !self.pieces[i].dragging;
        let ghost s = self.pieces@;
        let n = self.pieces.len();
        let mut j: usize = 0;
        while j < n
            invariant
                n == s.len(),
                i < n,
                j <= n,
                start == !s[i as int].dragging,
                self.pieces@.len() == n,
                self.descriptors@ == old(self).descriptors@,
                s == old(self).pieces@,
                forall|k: int| 0 <= k < j ==> #[trigger] self.pieces@[k] == toggled(s, i as int)[k],
                forall|k: int| j <= k < n ==> #[trigger] self.pieces@[k] == s[k],
            decreases n - j,
        {
            let same = if i == j {
                true
            } else {
                match self.pieces[i].group {
                    Some(g) => match self.pieces[j].group {
                        Some(h) => g == h,
                        None => false,
                    },
                    None => false,
                }
            };
            let mut st = self.pieces[j];
            st.dragging = start && same;
            self.pieces.set(j, st);
            j = j + 1;
        }
        proof {
            let t = self.pieces@;
            assert(t =~= toggled(s, i as int));
            assert forall|p: int| 0 <= p < t.len() implies t[p].group == s[p].group by {}
            lemma_same_groups_wf(s, t);
        }
        Ok(())
    }

    /// Moves every dragging piece by `(dx, dy)`, unless one of them would
    /// leave the coordinate range; then nothing moves.
    pub fn move_dragged(&mut self, dx: i64, dy: i64) -> (r: bool)
        requires
            old(self).wf(),
        ensures
            final(self).wf(),
            final(self).descs() == old(self).descs(),
            r == move_fits(old(self).states(), dx, dy),
            r ==> final(self).states() == moved(old(self).states(), dx, dy),
            !r ==> final(self).states() == old(self).states(),
    {
        if !self.move_fits(dx, dy) {
            return false;
        }
        let n = self.pieces.len();
        let ghost s = self.pieces@;
        let mut j: usize = 0;
        while j < n
            invariant
                n == s.len(),
                j <= n,
                move_fits(s, dx, dy),
                self.pieces@.len() == n,
                self.descriptors@ == old(self).descriptors@,
                s == old(self).pieces@,
                forall|k: int| 0 <= k < j ==> #[trigger] self.pieces@[k] == moved(s, dx, dy)[k],
                forall|k: int| j <= k < n ==> #[trigger] self.pieces@[k] == s[k],
            decreases n - j,
        {
            let mut st = self.pieces[j];
            if st.dragging {
                st.x = st.x + dx;
                st.y = st.y + dy;
                self.pieces.set(j, st);
            }
            j = j + 1;
        }
        proof {
            let t = self.pieces@;
            assert(t =~= moved(s, dx, dy));
            assert forall|p: int| 0 <= p < t.len() implies t[p].group == s[p].group && t[p].dragging
                == s[p].dragging by {}
            lemma_same_groups_wf(s, t);
        }
        true
    }

    fn move_fits(&self, dx: i64, dy: i64) -> (r: bool)
        ensures
            r == move_fits(self.states(), dx, dy),
    {
        let n = self.pieces.len();
        let mut j: usize = 0;
        while j < n
            invariant
                n == self.pieces@.len(),
                j <= n,
                forall|k: int| 0 <= k < j && #[trigger] self.pieces@[k].dragging ==> {
                    &&& i64::MIN <= self.pieces@[k].x + dx <= i64::MAX
                    &&& i64::MIN <= self.pieces@[k].y + dy <= i64::MAX
                },
            decreases n - j,
        {
            let st = self.pieces[j];
            if st.dragging {
                let nx: i128 = st.x as i128 + dx as i128;
                let ny: i128 = st.y as i128 + dy as i128;
                if nx < i64::MIN as i128 || nx > i64::MAX as i128 || ny < i64::MIN as i128 || ny
                    > i64::MAX as i128 {
                    return false;
                }
            }
            j = j + 1;
        }
        true
    }

    /// Whether pieces `a` and `b` sit at their correct relative offset,
    /// within the tolerance.
    fn is_aligned(&self, a: usize, b: usize) -> (r: bool)
        requires
            self.wf(),
            a < self.states().len(),
            b < self.states().len(),
        ensures
            r == aligned(self.states(), self.descs(), a as int, b as int),
    {
        let pa = self.pieces[a];
        let pb = self.pieces[b];
        let da = self.descriptors[a];
        let db = self.descriptors[b];
        let ex: i128 = (pa.x as i128 - pb.x as i128) - (da.anchor_x as i128 - db.anchor_x as i128);
        let ey: i128 = (pa.y as i128 - pb.y as i128) - (da.anchor_y as i128 - db.anchor_y as i128);
        let ax: i128 = if ex >= 0 { ex } else { -ex };
        let ay: i128 = if ey >= 0 { ey } else { -ey };
        ax <= MERGE_TOLERANCE as i128 && ay <= MERGE_TOLERANCE as i128
    }

    /// Locks `a` and `b` into a new group when both are free, grid-adjacent
    /// and aligned; tells whether it did.
    #[verifier::rlimit(40)]
    pub fn evaluate_merge(&mut self, a: usize, b: usize) -> (r: bool)
        requires
            old(self).wf(),
        ensures
            final(self).wf(),
            final(self).descs() == old(self).descs(),
            r == merge_ok(old(self).states(), old(self).descs(), a as int, b as int),
            r ==> final(self).states() == merged(old(self).states(), a as int, b as int),
            !r ==> final(self).states() == old(self).states(),
            groups_grew(old(self).states(), final(self).states()),
    {
        let n = self.pieces.len();
        if a >= n || b >= n || a == b {
            return false;
        }
        if self.pieces[a].group.is_some() || self.pieces[b].group.is_some() {
            return false;
        }
        if !is_grid_adjacent(&self.descriptors[a], &self.descriptors[b]) || !self.is_aligned(a, b) {
            return false;
        }
        let ghost s = self.pieces@;
        let g: usize = if a <= b { a } else { b };
        let flag = self.pieces[a].dragging || self.pieces[b].dragging;
        let mut sa = self.pieces[a];
        sa.group = Some(g);
        sa.dragging = flag;
        self.pieces.set(a, sa);
        let mut sb = self.pieces[b];
        sb.group = Some(g);
        sb.dragging = flag;
        self.pieces.set(b, sb);
        proof {
            let t = self.pieces@;
            assert(t =~= merged(s, a as int, b as int));
            let other = if g == a { b as int } else { a as int };
            assert(t[other].group == Some(g));
            assert(groups_wf(t)) by {
                assert forall|h: int| 0 <= h < t.len() && #[trigger] t[h].group == Some(h as usize) implies exists|q: int|
                    0 <= q < t.len() && q != h && #[trigger] t[q].group == Some(h as usize) by {
                    if h != g {
                        let q = choose|q: int| 0 <= q < s.len() && q != h && #[trigger] s[q].group == Some(h as usize);
                        assert(t[q].group == Some(h as usize));
                    } else {
                        assert(t[other].group == Some(h as usize));
                    }
                }
            }
        }
        true
    }

    /// Lets the free piece `p` join the group of `m` when they are
    /// grid-adjacent and aligned; tells whether it did.
    #[verifier::rlimit(40)]
    pub fn evaluate_join(&mut self, p: usize, m: usize) -> (r: bool)
        requires
            old(self).wf(),
        ensures
            final(self).wf(),
            final(self).descs() == old(self).descs(),
            r == join_ok(old(self).states(), old(self).descs(), p as int, m as int),
            r ==> final(self).states() == joined(old(self).states(), p as int, m as int),
            !r ==> final(self).states() == old(self).states(),
            groups_grew(old(self).states(), final(self).states()),
    {
        let n = self.pieces.len();
        if p >= n || m >= n || p == m {
            return false;
        }
        if self.pieces[p].group.is_some() || self.pieces[m].group.is_none() {
            return false;
        }
        if !is_grid_adjacent(&self.descriptors[p], &self.descriptors[m]) || !self.is_aligned(p, m) {
            return false;
        }
        let ghost s = self.pieces@;
        let g = self.pieces[m].group;
        let flag = self.pieces[p].dragging || self.pieces[m].dragging;
        let mut j: usize = 0;
        while j < n
            invariant
                n == s.len(),
                j <= n,
                p < n,
                m < n,
                g == s[m as int].group,
                g is Some,
                flag == (s[p as int].dragging || s[m as int].dragging),
                self.pieces@.len() == n,
                self.descriptors@ == old(self).descriptors@,
                s == old(self).pieces@,
                forall|k: int| 0 <= k < j ==> #[trigger] self.pieces@[k] == joined(s, p as int, m as int)[k],
                forall|k: int| j <= k < n ==> #[trigger] self.pieces@[k] == s[k],
            decreases n - j,
        {
            let mut st = self.pieces[j];
            if j == p {
                st.group = g;
                st.dragging = flag;
            } else if st.group == g {
                st.dragging = st.dragging || flag;
            }
            self.pieces.set(j, st);
            j = j + 1;
        }
        proof {
            let t = self.pieces@;
            assert(t =~= joined(s, p as int, m as int));
            let gg = g->0 as int;
            assert(s[gg].group == g);
            assert(groups_wf(t)) by {
                assert forall|h: int| 0 <= h < t.len() && #[trigger] t[h].group == Some(h as usize) implies exists|q: int|
                    0 <= q < t.len() && q != h && #[trigger] t[q].group == Some(h as usize) by {
                    assert(h != p);
                    let q = choose|q: int| 0 <= q < s.len() && q != h && #[trigger] s[q].group == Some(h as usize);
                    assert(t[q].group == Some(h as usize));
                }
            }
            assert(drag_wf(t)) by {
                assert forall|i: int, j: int|
                    0 <= i < t.len() && 0 <= j < t.len() && #[trigger] t[i].dragging && #[trigger] t[j].dragging
                        implies same_unit(t, i, j) by {
                    if !flag {
                        assert(s[i].dragging && s[j].dragging);
                        assert(same_unit(s, i, j));
                    } else if s[p as int].dragging {
                        assert(same_unit(s, p as int, m as int) == false);
                    }
                }
                assert forall|i: int, j: int|
                    0 <= i < t.len() && 0 <= j < t.len() && #[trigger] t[i].dragging && same_unit(t, i, j)
                        implies #[trigger] t[j].dragging by {
                    if !flag {
                        assert(s[i].dragging);
                        assert(same_unit(s, i, j));
                    }
                }
            }
        }
        true
    }

    /// One pass over the unit of `i`: tries every member against every piece.
    /// Tells whether any piece locked on; when none did, nothing more can.
    #[verifier::rlimit(60)]
    fn settle_pass(&mut self, i: usize) -> (changed: bool)
        requires
            old(self).wf(),
            i < old(self).states().len(),
        ensures
            final(self).wf(),
            final(self).descs() == old(self).descs(),
            groups_grew(old(self).states(), final(self).states()),
            locks_justified(old(self).states(), final(self).states(), old(self).descs(), i as int),
            changed ==> free_count(final(self).states()) < free_count(old(self).states()),
            !changed ==> final(self).states() == old(self).states() && settled(
                old(self).states(),
                old(self).descs(),
                i as int,
            ),
    {
        let mut changed = false;
        let ghost s0 = self.pieces@;
        let ghost d = self.descriptors@;
        let n = self.pieces.len();
        let mut k: usize = 0;
        while k < n
            invariant
                self.wf(),
                n == self.pieces@.len(),
                i < n,
                k <= n,
                s0 == old(self).pieces@,
                d == self.descriptors@,
                self.descriptors@ == old(self).descriptors@,
                groups_grew(old(self).pieces@, self.pieces@),
                locks_justified(s0, self.pieces@, d, i as int),
                changed ==> free_count(self.pieces@) < free_count(s0),
                !changed ==> self.pieces@ == s0,
                !changed ==> forall|k2: int, j2: int|
                    0 <= k2 < k && 0 <= j2 < n && same_unit(s0, i as int, k2) ==> #[trigger] stuck(s0, d, k2, j2),
            decreases n - k,
        {
            if self.unit_contains(i, k) {
                let mut j: usize = 0;
                while j < n
                    invariant
                        self.wf(),
                        n == self.pieces@.len(),
                        i < n,
                        k < n,
                        j <= n,
                        s0 == old(self).pieces@,
                        d == self.descriptors@,
                        self.descriptors@ == old(self).descriptors@,
                        groups_grew(old(self).pieces@, self.pieces@),
                        locks_justified(s0, self.pieces@, d, i as int),
                        same_unit(self.pieces@, i as int, k as int),
                        changed ==> free_count(self.pieces@) < free_count(s0),
                        !changed ==> self.pieces@ == s0,
                        !changed ==> forall|k2: int, j2: int|
                            0 <= k2 < k && 0 <= j2 < n && same_unit(s0, i as int, k2) ==> #[trigger] stuck(s0, d, k2, j2),
                        !changed ==> forall|j2: int| 0 <= j2 < j ==> #[trigger] stuck(s0, d, k as int, j2),
                    decreases n - j,
                {
                    let ghost before = self.pieces@;
                    if self.pieces[k].group.is_none() {
                        if self.pieces[j].group.is_none() {
                            let ok = self.evaluate_merge(k, j);
                            proof {
                                if ok {
                                    lemma_merge_justified(s0, before, d, i as int, j as int);
                                    lemma_free_count_grew(before, self.pieces@, k as int);
                                }
                            }
                            changed = changed || ok;
                        } else {
                            let ok = self.evaluate_join(k, j);
                            proof {
                                if ok {
                                    lemma_join_self_justified(s0, before, d, i as int, j as int);
                                    lemma_free_count_grew(before, self.pieces@, k as int);
                                }
                            }
                            changed = changed || ok;
                        }
                    } else {
                        let ok = self.evaluate_join(j, k);
                        proof {
                            if ok {
                                lemma_join_other_justified(s0, before, d, i as int, k as int, j as int);
                                lemma_free_count_grew(before, self.pieces@, j as int);
                            }
                        }
                        changed = changed || ok;
                    }
                    proof {
                        lemma_grew_trans(old(self).pieces@, before, self.pieces@);
                        lemma_unit_grows(before, self.pieces@, i as int);
                        lemma_free_count_grew(before, self.pieces@, -1);
                    }
                    j = j + 1;
                }
            }
            k = k + 1;
        }
        changed
    }

    /// After the unit of piece `i` was put or moved somewhere: every free
    /// piece that fits against a member of the unit locks on to it, until no
    /// more can.
    pub fn settle(&mut self, i: usize)
        requires
            old(self).wf(),
            i < old(self).states().len(),
        ensures
            final(self).wf(),
            final(self).descs() == old(self).descs(),
            groups_grew(old(self).states(), final(self).states()),
            locks_justified(old(self).states(), final(self).states(), old(self).descs(), i as int),
            settled(final(self).states(), final(self).descs(), i as int),
            is_free(old(self).states(), i as int) && can_lock(old(self).states(), old(self).descs(), i as int)
                ==> !is_free(final(self).states(), i as int),
    {
        let ghost s0 = self.pieces@;
        let ghost d = self.descriptors@;
        loop
            invariant
                self.wf(),
                i < self.pieces@.len(),
                s0 == old(self).pieces@,
                d == self.descriptors@,
                self.descriptors@ == old(self).descriptors@,
                groups_grew(s0, self.pieces@),
                locks_justified(s0, self.pieces@, d, i as int),
            ensures
                self.wf(),
                groups_grew(s0, self.pieces@),
                locks_justified(s0, self.pieces@, d, i as int),
                settled(self.pieces@, d, i as int),
            decreases free_count(self.pieces@),
        {
            let ghost before = self.pieces@;
            let changed = self.settle_pass(i);
            proof {
                lemma_grew_trans(s0, before, self.pieces@);
                lemma_justified_chain(s0, before, self.pieces@, d, i as int);
            }
            if !changed {
                break;
            }
        }
        proof {
            let t = self.pieces@;
            if is_free(s0, i as int) && can_lock(s0, d, i as int) && is_free(t, i as int) {
                let j = choose|j: int| #[trigger] merge_ok(s0, d, i as int, j) || join_ok(s0, d, i as int, j);
                assert(0 <= j < t.len());
                assert(same_unit(t, i as int, i as int));
                assert(stuck(t, d, i as int, j));
                assert(t[i as int].x == s0[i as int].x && t[j].x == s0[j].x);
                assert(aligned(t, d, i as int, j));
            }
        }
    }

    /// The first pair of free grid-adjacent pieces, in index order.
    pub fn find_hint_pair(&self) -> (r: Option<(usize, usize)>)
        requires
            self.wf(),
        ensures
            first_hint(self.states(), self.descs(), r),
    {
        let n = self.pieces.len();
        let ghost s = self.pieces@;
        let ghost d = self.descriptors@;
        let mut a: usize = 0;
        while a < n
            invariant
                n == s.len(),
                s == self.pieces@,
                d == self.descriptors@,
                self.wf(),
                a <= n,
                forall|a2: int, b2: int| a2 < a && #[trigger] hint_ok(s, d, a2, b2) ==> false,
            decreases n - a,
        {
            if self.pieces[a].group.is_none() {
                let mut b: usize = 0;
                while b < n
                    invariant
                        n == s.len(),
                        s == self.pieces@,
                        d == self.descriptors@,
                        self.wf(),
                        a < n,
                        b <= n,
                        s[a as int].group is None,
                        forall|a2: int, b2: int| a2 < a && #[trigger] hint_ok(s, d, a2, b2) ==> false,
                        forall|b2: int| b2 < b && #[trigger] hint_ok(s, d, a as int, b2) ==> false,
                    decreases n - b,
                {
                    if b != a && self.pieces[b].group.is_none() && is_grid_adjacent(
                        &self.descriptors[a],
                        &self.descriptors[b],
                    ) {
                        proof {
                            assert(hint_ok(s, d, a as int, b as int));
                        }
                        return Some((a, b));
                    }
                    b = b + 1;
                }
            }
            a = a + 1;
        }
        None
    }

    /// Clears every selection and selects the first hint pair, if any.
    pub fn select_hint(&mut self) -> (r: Option<(usize, usize)>)
        requires
            old(self).wf(),
        ensures
            final(self).wf(),
            final(self).descs() == old(self).descs(),
            first_hint(old(self).states(), old(self).descs(), r),
            final(self).states() == selected_only(old(self).states(), r),
    {
        let r = self.find_hint_pair();
        let ghost s = self.pieces@;
        let n = self.pieces.len();
        let mut j: usize = 0;
        while j < n
            invariant
                n == s.len(),
                j <= n,
                self.pieces@.len() == n,
                self.descriptors@ == old(self).descriptors@,
                s == old(self).pieces@,
                first_hint(s, self.descriptors@, r),
                forall|k: int| 0 <= k < j ==> #[trigger] self.pieces@[k] == selected_only(s, r)[k],
                forall|k: int| j <= k < n ==> #[trigger] self.pieces@[k] == s[k],
            decreases n - j,
        {
            let mut st = self.pieces[j];
            st.selected = match r {
                Some((a, b)) => j == a || j == b,
                None => false,
            };
            self.pieces.set(j, st);
            j = j + 1;
        }
        proof {
            let t = self.pieces@;
            assert(t =~= selected_only(s, r));
            assert forall|p: int| 0 <= p < t.len() implies t[p].group == s[p].group && t[p].dragging
                == s[p].dragging by {}
            lemma_same_groups_wf(s, t);
        }
        r
    }

    fn unit_contains(&self, i: usize, j: usize) -> (r: bool)
        requires
            i < self.states().len(),
            j < self.states().len(),
        ensures
            r == same_unit(self.states(), i as int, j as int),
    {
        if i == j {
            return true;
        }
        match self.pieces[i].group {
            Some(g) => match self.pieces[j].group {
                Some(h) => g == h,
                None => false,
            },
            None => false,
        }
    }
}

/// Once an image was installed on a piece, installing another on it fails
/// with `DuplicateInstallation` and the first stays.
pub proof fn lemma_install_once(s0: Seq<PieceState>, i: int, first: u64, s1: Seq<PieceState>, second: u64)
    requires
        installed(s0, i, first) == Ok::<Seq<PieceState>, BoardError>(s1),
    ensures
        installed(s1, i, second) == Err::<Seq<PieceState>, BoardError>(BoardError::DuplicateInstallation),
        s1[i].texture == Some(first),
{
}

/// The pieces of group `g`.
pub open spec fn group_members(s: Seq<PieceState>, g: usize) -> Set<int> {
    Set::new(|p: int| 0 <= p < s.len() && s[p].group == Some(g))
}

/// On a well-formed board no piece is in two groups, and every group that has
/// a member is named by one of them and has at least two.
pub proof fn lemma_group_partition(s: Seq<PieceState>, d: Seq<PieceDescriptor>, g1: usize, g2: usize, p: int)
    requires
        board_wf(s, d),
        g1 != g2,
        group_members(s, g1).contains(p),
    ensures
        !group_members(s, g2).contains(p),
        group_members(s, g1).contains(g1 as int),
        exists|q: int| q != g1 && #[trigger] group_members(s, g1).contains(q),
{
    let g = g1 as int;
    assert(s[p].group is Some);
    assert(s[g].group == Some(g1));
    let q = choose|q: int| 0 <= q < s.len() && q != g && #[trigger] s[q].group == Some(g1);
    assert(group_members(s, g1).contains(q));
}

/// Clicking a piece that is not being carried and then moving the pointer by
/// `(dx, dy)` moves every piece of its unit by exactly that much and leaves
/// every other piece where it was.
pub proof fn lemma_drag_moves_unit(s: Seq<PieceState>, d: Seq<PieceDescriptor>, i: int, dx: i64, dy: i64)
    requires
        board_wf(s, d),
        0 <= i < s.len(),
        !s[i].dragging,
        move_fits(toggled(s, i), dx, dy),
    ensures
        forall|j: int| 0 <= j < s.len() && same_unit(s, i, j) ==> {
            &&& (#[trigger] moved(toggled(s, i), dx, dy)[j]).x == s[j].x + dx
            &&& moved(toggled(s, i), dx, dy)[j].y == s[j].y + dy
        },
        forall|j: int| 0 <= j < s.len() && !same_unit(s, i, j) ==> {
            &&& (#[trigger] moved(toggled(s, i), dx, dy)[j]).x == s[j].x
            &&& moved(toggled(s, i), dx, dy)[j].y == s[j].y
        },
{
    assert forall|j: int| 0 <= j < s.len() implies (#[trigger] toggled(s, i)[j]).dragging == same_unit(s, i, j) by {}
    assert forall|j: int| 0 <= j < s.len() && toggled(s, i)[j].dragging implies {
        &&& i64::MIN <= toggled(s, i)[j].x + dx <= i64::MAX
        &&& i64::MIN <= toggled(s, i)[j].y + dy <= i64::MAX
    } by {}
}

} // verus!
