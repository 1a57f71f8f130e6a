use vstd::prelude::*;
use vstd::arithmetic::div_mod::lemma_fundamental_div_mod;
use crate::particle::Phase;

verus! {

/// Index of the particle at column `x`, row `y` of a cloth of `width` columns whose
/// first particle is `start`.
pub open spec fn point(start: int, width: int, x: int, y: int) -> int {
    start + y * width + x
}

/// Number of horizontal edges of a `width` by `height` cloth.
pub open spec fn n_horizontal(width: int, height: int) -> int {
    if width >= 1 {
        (width - 1) * height
    } else {
        0
    }
}

/// Number of vertical edges.
pub open spec fn n_vertical(width: int, height: int) -> int {
    if height >= 1 {
        width * (height - 1)
    } else {
        0
    }
}

/// Number of grid squares; each has two diagonal edges.
pub open spec fn n_squares(width: int, height: int) -> int {
    if width >= 1 && height >= 1 {
        (width - 1) * (height - 1)
    } else {
        0
    }
}

/// Number of interior horizontal edges (rows 1 .. height - 2).
pub open spec fn n_inner_horizontal(width: int, height: int) -> int {
    if width >= 1 && height >= 2 {
        (width - 1) * (height - 2)
    } else {
        0
    }
}

/// Number of interior vertical edges (columns 1 .. width - 2).
pub open spec fn n_inner_vertical(width: int, height: int) -> int {
    if width >= 2 && height >= 1 {
        (width - 2) * (height - 1)
    } else {
        0
    }
}

/// Number of distance edges of a cloth: horizontal, vertical and both diagonals of
/// each square.
pub open spec fn n_cloth_edges(width: int, height: int) -> int {
    n_horizontal(width, height) + n_vertical(width, height) + 2 * n_squares(width, height)
}

/// Number of bending hinges of a cloth: one per interior edge of the triangulation
/// that splits each square along its diagonal from (x, y) to (x + 1, y + 1).
pub open spec fn n_cloth_hinges(width: int, height: int) -> int {
    n_squares(width, height) + n_inner_horizontal(width, height) + n_inner_vertical(width, height)
}

/// The `k`-th distance edge of a cloth. Edges come by family: horizontal edges
/// row by row, then vertical edges, then the diagonals (x, y)-(x + 1, y + 1), then
/// the diagonals (x + 1, y)-(x, y + 1); within a family, row-major.
pub open spec fn cloth_edge(start: int, width: int, height: int, k: int) -> (int, int) {
    let nh = n_horizontal(width, height);
    let nv = n_vertical(width, height);
    let nd = n_squares(width, height);
    if k < nh {
        let x = k % (width - 1);
        let y = k / (width - 1);
        (point(start, width, x, y), point(start, width, x + 1, y))
    } else if k < nh + nv {
        let x = (k - nh) % width;
        let y = (k - nh) / width;
        (point(start, width, x, y), point(start, width, x, y + 1))
    } else if k < nh + nv + nd {
        let x = (k - nh - nv) % (width - 1);
        let y = (k - nh - nv) / (width - 1);
        (point(start, width, x, y), point(start, width, x + 1, y + 1))
    } else {
        let x = (k - nh - nv - nd) % (width - 1);
        let y = (k - nh - nv - nd) / (width - 1);
        (point(start, width, x + 1, y), point(start, width, x, y + 1))
    }
}

/// The `k`-th bending hinge `(i, j, k, l)` of a cloth: `(i, j)` is the shared edge,
/// `k` and `l` the opposite corners of its two triangles. Hinges on the square
/// diagonals come first, then interior horizontal edges, then interior vertical
/// edges; within a family, row-major.
pub open spec fn cloth_hinge(start: int, width: int, height: int, k: int) -> (int, int, int, int) {
    let nd = n_squares(width, height);
    let nih = n_inner_horizontal(width, height);
    if k < nd {
        let x = k % (width - 1);
        let y = k / (width - 1);
        (
            point(start, width, x, y),
            point(start, width, x + 1, y + 1),
            point(start, width, x + 1, y),
            point(start, width, x, y + 1),
        )
    } else if k < nd + nih {
        let x = (k - nd) % (width - 1);
        let y = (k - nd) / (width - 1) + 1;
        (
            point(start, width, x, y),
            point(start, width, x + 1, y),
            point(start, width, x + 1, y + 1),
            point(start, width, x, y - 1),
        )
    } else {
        let x = (k - nd - nih) % (width - 2) + 1;
        let y = (k - nd - nih) / (width - 2);
        (
            point(start, width, x, y),
            point(start, width, x, y + 1),
            point(start, width, x + 1, y + 1),
            point(start, width, x - 1, y),
        )
    }
}

/// Column and row of the `k`-th cell of a row-major block with `cols` columns and
/// `rows` rows.
fn cell_of(k: usize, cols: usize, rows: usize) -> (r: (usize, usize))
    requires
        0 < cols,
        k < cols * rows,
    ensures
        r.0 == k % cols,
        r.1 == k / cols,
        r.0 < cols,
        r.1 < rows,
{
    proof {
        lemma_fundamental_div_mod(k as int, cols as int);
        let y = k as int / cols as int;
        assert(y < rows) by (nonlinear_arith)
            requires
                k as int == cols * y + k as int % cols as int,
                0 <= k as int % cols as int,
                k < cols * rows,
                0 < cols,
        ;
    }
    (k % cols, k / cols)
}

/// Index of the particle at column `x`, row `y`.
fn point_index(start: usize, width: usize, height: usize, x: usize, y: usize) -> (r: u32)
    requires
        x < width,
        y < height,
        start + width * height <= u32::MAX,
    ensures
        r as int == point(start as int, width as int, x as int, y as int),
        r < start + width * height,
{
    assert(y * width + x < width * height) by (nonlinear_arith)
        requires
            x < width,
            y < height,
    ;
    (start + y * width + x) as u32
}

/// A cloth edge as a pair of integers.
pub open spec fn edge_view(e: (u32, u32)) -> (int, int) {
    (e.0 as int, e.1 as int)
}

/// A cloth hinge as a quadruple of integers.
pub open spec fn hinge_view(e: (u32, u32, u32, u32)) -> (int, int, int, int) {
    (e.0 as int, e.1 as int, e.2 as int, e.3 as int)
}

/// Sizes of the edge families of a cloth: horizontal, vertical, squares.
fn edge_family_sizes(width: usize, height: usize) -> (r: (usize, usize, usize))
    requires
        width * height <= u32::MAX,
    ensures
        r.0 == n_horizontal(width as int, height as int),
        r.1 == n_vertical(width as int, height as int),
        r.2 == n_squares(width as int, height as int),
        r.0 <= width * height,
        r.1 <= width * height,
        r.2 <= width * height,
{
    let nh = if width >= 1 {
        assert((width - 1) * height <= width * height) by (nonlinear_arith)
            requires
                width >= 1,
        ;
        (width - 1) * height
    } else {
        0
    };
    let nv = if height >= 1 {
        assert(width * (height - 1) <= width * height) by (nonlinear_arith)
            requires
                height >= 1,
        ;
        width * (height - 1)
    } else {
        0
    };
    let nd = if width >= 1 && height >= 1 {
        assert((width - 1) * (height - 1) <= width * height) by (nonlinear_arith)
            requires
                width >= 1,
                height >= 1,
        ;
        (width - 1) * (height - 1)
    } else {
        0
    };
    (nh, nv, nd)
}

/// The distance edges of a `width` by `height` cloth whose particles are
/// `start .. start + width * height`, row-major.
pub fn cloth_edges(start: usize, width: usize, height: usize) -> (r: Vec<(u32, u32)>)
    requires
        start + width * height <= u32::MAX,
        width * height <= usize::MAX / 4,
    ensures
        r@.len() == n_cloth_edges(width as int, height as int),
        forall|q: int|
            0 <= q < r@.len() ==> #[trigger] edge_view(r@[q]) == cloth_edge(
                start as int,
                width as int,
                height as int,
                q,
            ),
{
    let (nh, nv, nd) = edge_family_sizes(width, height);
    let total = nh + nv + 2 * nd;
    let mut r: Vec<(u32, u32)> = Vec::new();
    let mut k: usize = 0;
    while k < total
        invariant
            start + width * height <= u32::MAX,
            width * height <= usize::MAX / 4,
            nh == n_horizontal(width as int, height as int),
            nv == n_vertical(width as int, height as int),
            nd == n_squares(width as int, height as int),
            total == nh + nv + 2 * nd,
            k <= total,
            r@.len() == k,
            forall|q: int|
                0 <= q < k ==> #[trigger] edge_view(r@[q]) == cloth_edge(
                    start as int,
                    width as int,
                    height as int,
                    q,
                ),
        decreases total - k,
    {
        let e = if k < nh {
            let (x, y) = cell_of(k, width - 1, height);
            (point_index(start, width, height, x, y), point_index(start, width, height, x + 1, y))
        } else if k < nh + nv {
            assert(width > 0 && height > 1) by (nonlinear_arith)
                requires
                    nv > 0,
                    nv == n_vertical(width as int, height as int),
            ;
            let (x, y) = cell_of(k - nh, width, height - 1);
            (point_index(start, width, height, x, y), point_index(start, width, height, x, y + 1))
        } else if k < nh + nv + nd {
            assert(width > 1 && height > 1) by (nonlinear_arith)
                requires
                    nd > 0,
                    nd == n_squares(width as int, height as int),
            ;
            let (x, y) = cell_of(k - nh - nv, width - 1, height - 1);
            (
                point_index(start, width, height, x, y),
                point_index(start, width, height, x + 1, y + 1),
            )
        } else {
            assert(width > 1 && height > 1) by (nonlinear_arith)
                requires
                    nd > 0,
                    nd == n_squares(width as int, height as int),
            ;
            let (x, y) = cell_of(k - nh - nv - nd, width - 1, height - 1);
            (
                point_index(start, width, height, x + 1, y),
                point_index(start, width, height, x, y + 1),
            )
        };
        r.push(e);
        proof {
            assert(edge_view(r@[k as int]) == cloth_edge(start as int, width as int, height as int, k as int));
            assert forall|q: int| 0 <= q < k + 1 implies #[trigger] edge_view(r@[q]) == cloth_edge(
                start as int,
                width as int,
                height as int,
                q,
            ) by {}
        }
        k += 1;
    }
    r
}

/// Sizes of the hinge families of a cloth: squares, interior horizontal edges,
/// interior vertical edges.
fn hinge_family_sizes(width: usize, height: usize) -> (r: (usize, usize, usize))
    requires
        width * height <= u32::MAX,
    ensures
        r.0 == n_squares(width as int, height as int),
        r.1 == n_inner_horizontal(width as int, height as int),
        r.2 == n_inner_vertical(width as int, height as int),
        r.0 <= width * height,
        r.1 <= width * height,
        r.2 <= width * height,
{
    let (_, _, nd) = edge_family_sizes(width, height);
    let nih = if width >= 1 && height >= 2 {
        assert((width - 1) * (height - 2) <= width * height) by (nonlinear_arith)
            requires
                width >= 1,
                height >= 2,
        ;
        (width - 1) * (height - 2)
    } else {
        0
    };
    let niv = if width >= 2 && height >= 1 {
        assert((width - 2) * (height - 1) <= width * height) by (nonlinear_arith)
            requires
                width >= 2,
                height >= 1,
        ;
        (width - 2) * (height - 1)
    } else {
        0
    };
    (nd, nih, niv)
}

/// The bending hinges of a `width` by `height` cloth whose particles are
/// `start .. start + width * height`, row-major.
pub fn cloth_hinges(start: usize, width: usize, height: usize) -> (r: Vec<(u32, u32, u32, u32)>)
    requires
        start + width * height <= u32::MAX,
        width * height <= usize::MAX / 4,
    ensures
        r@.len() == n_cloth_hinges(width as int, height as int),
        forall|q: int|
            0 <= q < r@.len() ==> #[trigger] hinge_view(r@[q]) == cloth_hinge(
                start as int,
                width as int,
                height as int,
                q,
            ),
{
    let (nd, nih, niv) = hinge_family_sizes(width, height);
    let total = nd + nih + niv;
    let mut r: Vec<(u32, u32, u32, u32)> = Vec::new();
    let mut k: usize = 0;
    while k < total
        invariant
            start + width * height <= u32::MAX,
            width * height <= usize::MAX / 4,
            nd == n_squares(width as int, height as int),
            nih == n_inner_horizontal(width as int, height as int),
            niv == n_inner_vertical(width as int, height as int),
            total == nd + nih + niv,
            k <= total,
            r@.len() == k,
            forall|q: int|
                0 <= q < k ==> #[trigger] hinge_view(r@[q]) == cloth_hinge(
                    start as int,
                    width as int,
                    height as int,
                    q,
                ),
        decreases total - k,
    {
        let e = if k < nd {
            assert(width > 1 && height > 1) by (nonlinear_arith)
                requires
                    nd > 0,
                    nd == n_squares(width as int, height as int),
            ;
            let (x, y) = cell_of(k, width - 1, height - 1);
            (
                point_index(start, width, height, x, y),
                point_index(start, width, height, x + 1, y + 1),
                point_index(start, width, height, x + 1, y),
                point_index(start, width, height, x, y + 1),
            )
        } else if k < nd + nih {
            assert(width > 1 && height > 2) by (nonlinear_arith)
                requires
                    nih > 0,
                    nih == n_inner_horizontal(width as int, height as int),
            ;
            let (x, y0) = cell_of(k - nd, width - 1, height - 2);
            let y = y0 + 1;
            (
                point_index(start, width, height, x, y),
                point_index(start, width, height, x + 1, y),
                point_index(start, width, height, x + 1, y + 1),
                point_index(start, width, height, x, y - 1),
            )
        } else {
            assert(width > 2 && height > 1) by (nonlinear_arith)
                requires
                    niv > 0,
                    niv == n_inner_vertical(width as int, height as int),
            ;
            let (x0, y) = cell_of(k - nd - nih, width - 2, height - 1);
            let x = x0 + 1;
            (
                point_index(start, width, height, x, y),
                point_index(start, width, height, x, y + 1),
                point_index(start, width, height, x + 1, y + 1),
                point_index(start, width, height, x - 1, y),
            )
        };
        r.push(e);
        proof {
            assert(hinge_view(r@[k as int]) == cloth_hinge(start as int, width as int, height as int, k as int));
            assert forall|q: int| 0 <= q < k + 1 implies #[trigger] hinge_view(r@[q]) == cloth_hinge(
                start as int,
                width as int,
                height as int,
                q,
            ) by {}
        }
        k += 1;
    }
    r
}

/// Why a topology request was turned down.
#[derive(Clone, Copy, PartialEq, Eq, Debug, Structural)]
pub enum TopologyError {
    /// The requested particle range runs past the particle count (or the cloth's
    /// edges would not fit in memory).
    CapacityExceeded,
}

/// A rigid body: the particles `start .. start + count`, matched to their rest shape.
#[derive(Clone, Copy, PartialEq, Eq, Debug, Structural)]
pub struct RigidGroup {
    pub start: u32,
    pub count: u32,
}

/// Which particles take part in which persistent constraint: the phase of each
/// particle, the cloth's distance edges and bending hinges, and the rigid groups.
pub struct ConstraintTopology {
    phase: Vec<Phase>,
    distance_edges: Vec<(u32, u32)>,
    bending_hinges: Vec<(u32, u32, u32, u32)>,
    rigid_groups: Vec<RigidGroup>,
}

/// `s2` is `s1` with the particles `start .. end` given phase `p`.
pub open spec fn phases_set(s1: Seq<Phase>, s2: Seq<Phase>, start: int, end: int, p: Phase) -> bool {
    &&& s2.len() == s1.len()
    &&& forall|i: int| 0 <= i < s1.len() ==> #[trigger] s2[i] == if start <= i < end {
        p
    } else {
        s1[i]
    }
}

impl ConstraintTopology {
    pub closed spec fn phases_spec(&self) -> Seq<Phase> {
        self.phase@
    }

    pub closed spec fn edges_spec(&self) -> Seq<(u32, u32)> {
        self.distance_edges@
    }

    pub closed spec fn hinges_spec(&self) -> Seq<(u32, u32, u32, u32)> {
        self.bending_hinges@
    }

    pub closed spec fn groups_spec(&self) -> Seq<RigidGroup> {
        self.rigid_groups@
    }

    /// Every constraint names existing particles.
    pub open spec fn wf(&self) -> bool {
        let n = self.phases_spec().len();
        &&& n <= u32::MAX
        &&& forall|q: int|
            0 <= q < self.edges_spec().len() ==> (#[trigger] self.edges_spec()[q]).0 < n
                && self.edges_spec()[q].1 < n
        &&& forall|q: int|
            0 <= q < self.hinges_spec().len() ==> {
                let e = #[trigger] self.hinges_spec()[q];
                e.0 < n && e.1 < n && e.2 < n && e.3 < n
            }
        &&& forall|q: int|
            0 <= q < self.groups_spec().len() ==> (#[trigger] self.groups_spec()[q]).start
                + self.groups_spec()[q].count <= n
    }

    /// `particle_count` free particles and no constraints.
    pub fn new(particle_count: usize) -> (t: Self)
        requires
            particle_count <= u32::MAX,
        ensures
            t.wf(),
            t.phases_spec().len() == particle_count,
            forall|i: int| 0 <= i < particle_count ==> #[trigger] t.phases_spec()[i] == Phase::Free,
            t.edges_spec().len() == 0,
            t.hinges_spec().len() == 0,
            t.groups_spec().len() == 0,
    {
        let mut phase: Vec<Phase> = Vec::new();
        let mut i: usize = 0;
        while i < particle_count
            invariant
                i <= particle_count,
                phase@.len() == i,
                forall|j: int| 0 <= j < i ==> #[trigger] phase@[j] == Phase::Free,
            decreases particle_count - i,
        {
            phase.push(Phase::Free);
            i += 1;
        }
        ConstraintTopology {
            phase,
            distance_edges: Vec::new(),
            bending_hinges: Vec::new(),
            rigid_groups: Vec::new(),
        }
    }

    pub fn particle_count(&self) -> (r: usize)
        ensures
            r == self.phases_spec().len(),
    {
        self.phase.len()
    }

    pub fn phases(&self) -> (r: &Vec<Phase>)
        ensures
            r@ == self.phases_spec(),
    {
        &self.phase
    }

    pub fn distance_edges(&self) -> (r: &Vec<(u32, u32)>)
        ensures
            r@ == self.edges_spec(),
    {
        &self.distance_edges
    }

    pub fn bending_hinges(&self) -> (r: &Vec<(u32, u32, u32, u32)>)
        ensures
            r@ == self.hinges_spec(),
    {
        &self.bending_hinges
    }

    pub fn rigid_groups(&self) -> (r: &Vec<RigidGroup>)
        ensures
            r@ == self.groups_spec(),
    {
        &self.rigid_groups
    }

    /// Gives the particles `start .. end` phase `p`.
    fn set_range(&mut self, start: usize, end: usize, p: Phase)
        requires
            start <= end <= old(self).phases_spec().len(),
        ensures
            phases_set(old(self).phases_spec(), final(self).phases_spec(), start as int, end as int, p),
            final(self).edges_spec() == old(self).edges_spec(),
            final(self).hinges_spec() == old(self).hinges_spec(),
            final(self).groups_spec() == old(self).groups_spec(),
    {
        let ghost before = self.phase@;
        let mut i = start;
        while i < end
            invariant
                start <= i <= end,
                end <= before.len(),
                self.phase@.len() == before.len(),
                forall|j: int| 0 <= j < before.len() ==> #[trigger] self.phase@[j] == if start <= j < i {
                    p
                } else {
                    before[j]
                },
                self.distance_edges@ == old(self).distance_edges@,
                self.bending_hinges@ == old(self).bending_hinges@,
                self.rigid_groups@ == old(self).rigid_groups@,
            decreases end - i,
        {
            self.phase.set(i, p);
            i += 1;
        }
    }

    /// Makes the particles `start_idx .. start_idx + width * height` a cloth, row-major
    /// with `width` columns: they become `Cloth` and the cloth's distance edges and
    /// bending hinges are appended. A range that runs past the particle count is
    /// refused and nothing changes.
    pub fn create_cloth(&mut self, start_idx: usize, width: usize, height: usize) -> (r: Result<(), TopologyError>)
        requires
            old(self).wf(),
        ensures
            final(self).wf(),
            r is Err <==> (start_idx + width * height > old(self).phases_spec().len() || width * height
                > usize::MAX / 4),
            r is Err ==> final(self).phases_spec() == old(self).phases_spec() && final(self).edges_spec()
                == old(self).edges_spec() && final(self).hinges_spec() == old(self).hinges_spec(),
            r is Ok ==> {
                let e0 = old(self).edges_spec().len();
                let h0 = old(self).hinges_spec().len();
                &&& phases_set(
                    old(self).phases_spec(),
                    final(self).phases_spec(),
                    start_idx as int,
                    start_idx + width * height,
                    Phase::Cloth,
                )
                &&& final(self).edges_spec().len() == e0 + n_cloth_edges(width as int, height as int)
                &&& forall|q: int| 0 <= q < e0 ==> #[trigger] final(self).edges_spec()[q] == old(self).edges_spec()[q]
                &&& forall|q: int|
                    0 <= q < n_cloth_edges(width as int, height as int) ==> #[trigger] edge_view(
                        final(self).edges_spec()[e0 + q],
                    ) == cloth_edge(start_idx as int, width as int, height as int, q)
                &&& final(self).hinges_spec().len() == h0 + n_cloth_hinges(width as int, height as int)
                &&& forall|q: int| 0 <= q < h0 ==> #[trigger] final(self).hinges_spec()[q] == old(self).hinges_spec()[q]
                &&& forall|q: int|
                    0 <= q < n_cloth_hinges(width as int, height as int) ==> #[trigger] hinge_view(
                        final(self).hinges_spec()[h0 + q],
                    ) == cloth_hinge(start_idx as int, width as int, height as int, q)
            },
            final(self).groups_spec() == old(self).groups_spec(),
    {
        let n = self.phase.len();
        let area = match width.checked_mul(height) {
            Some(a) => a,
            None => {
                return Err(TopologyError::CapacityExceeded);
            },
        };
        if start_idx > n || area > n - start_idx || area > usize::MAX / 4 {
            return Err(TopologyError::CapacityExceeded);
        }
        let end = start_idx + area;
        assert(area == width * height);
        let mut edges = cloth_edges(start_idx, width, height);
        let mut hinges = cloth_hinges(start_idx, width, height);
        let ghost e0 = self.distance_edges@;
        let ghost h0 = self.bending_hinges@;
        let ghost new_edges = edges@;
        let ghost new_hinges = hinges@;
        self.set_range(start_idx, end, Phase::Cloth);
        self.distance_edges.append(&mut edges);
        self.bending_hinges.append(&mut hinges);
        proof {
            assert(self.distance_edges@ == e0 + new_edges);
            assert(self.bending_hinges@ == h0 + new_hinges);
            assert forall|q: int| 0 <= q < new_edges.len() implies #[trigger] new_edges[q].0 < n
                && new_edges[q].1 < n by {
                assert(edge_view(new_edges[q]) == cloth_edge(start_idx as int, width as int, height as int, q));
                lemma_cloth_edge_in_cloth(start_idx as int, width as int, height as int, q);
            }
            assert forall|q: int| 0 <= q < new_hinges.len() implies {
                let e = #[trigger] new_hinges[q];
                e.0 < n && e.1 < n && e.2 < n && e.3 < n
            } by {
                assert(hinge_view(new_hinges[q]) == cloth_hinge(start_idx as int, width as int, height as int, q));
                lemma_cloth_hinge_in_cloth(start_idx as int, width as int, height as int, q);
            }
            assert forall|q: int| 0 <= q < new_edges.len() implies #[trigger] edge_view(
                self.distance_edges@[e0.len() + q],
            ) == cloth_edge(start_idx as int, width as int, height as int, q) by {
                assert(self.distance_edges@[e0.len() + q] == new_edges[q]);
            }
            assert forall|q: int| 0 <= q < new_hinges.len() implies #[trigger] hinge_view(
                self.bending_hinges@[h0.len() + q],
            ) == cloth_hinge(start_idx as int, width as int, height as int, q) by {
                assert(self.bending_hinges@[h0.len() + q] == new_hinges[q]);
            }
            assert forall|q: int| 0 <= q < self.distance_edges@.len() implies (
            #[trigger] self.distance_edges@[q]).0 < n && self.distance_edges@[q].1 < n by {
                if q >= e0.len() {
                    assert(self.distance_edges@[q] == new_edges[q - e0.len()]);
                }
            }
            assert forall|q: int| 0 <= q < self.bending_hinges@.len() implies {
                let e = #[trigger] self.bending_hinges@[q];
                e.0 < n && e.1 < n && e.2 < n && e.3 < n
            } by {
                if q >= h0.len() {
                    assert(self.bending_hinges@[q] == new_hinges[q - h0.len()]);
                }
            }
        }
        Ok(())
    }
    /// Makes the particles `start_idx .. start_idx + count` one rigid body: they become
    /// `Rigid` and a group is appended. A range that runs past the particle count is
    /// refused and nothing changes.
    pub fn create_rigid_body(&mut self, start_idx: usize, count: usize) -> (r: Result<(), TopologyError>)
        requires
            old(self).wf(),
        ensures
            final(self).wf(),
            r is Err <==> start_idx + count > old(self).phases_spec().len(),
            r is Err ==> final(self).phases_spec() == old(self).phases_spec() && final(self).groups_spec()
                == old(self).groups_spec(),
            r is Ok ==> phases_set(
                old(self).phases_spec(),
                final(self).phases_spec(),
                start_idx as int,
                start_idx + count,
                Phase::Rigid,
            ) && final(self).groups_spec() == old(self).groups_spec().push(
                RigidGroup { start: start_idx as u32, count: count as u32 },
            ),
            final(self).edges_spec() == old(self).edges_spec(),
            final(self).hinges_spec() == old(self).hinges_spec(),
    {
        let n = self.phase.len();
        if start_idx > n || count > n - start_idx {
            return Err(TopologyError::CapacityExceeded);
        }
        self.set_range(start_idx, start_idx + count, Phase::Rigid);
        let g = RigidGroup { start: start_idx as u32, count: count as u32 };
        let ghost before = self.rigid_groups@;
        self.rigid_groups.push(g);
        proof {
            assert forall|q: int| 0 <= q < self.rigid_groups@.len() implies (
            #[trigger] self.rigid_groups@[q]).start + self.rigid_groups@[q].count <= n by {
                if q < before.len() {
                    assert(self.rigid_groups@[q] == before[q]);
                }
            }
        }
        Ok(())
    }

    /// Every particle becomes `Free` and every persistent constraint is dropped.
    pub fn clear_constraints(&mut self)
        requires
            old(self).wf(),
        ensures
            final(self).wf(),
            phases_set(
                old(self).phases_spec(),
                final(self).phases_spec(),
                0,
                old(self).phases_spec().len() as int,
                Phase::Free,
            ),
            final(self).edges_spec().len() == 0,
            final(self).hinges_spec().len() == 0,
            final(self).groups_spec().len() == 0,
    {
        let n = self.phase.len();
        self.set_range(0, n, Phase::Free);
        self.distance_edges.clear();
        self.bending_hinges.clear();
        self.rigid_groups.clear();
    }

    /// Gives particle `index` phase `p`; an index past the particle count is ignored.
    pub fn set_particle_phase(&mut self, index: usize, p: Phase)
        requires
            old(self).wf(),
        ensures
            final(self).wf(),
            final(self).phases_spec() == if index < old(self).phases_spec().len() {
                old(self).phases_spec().update(index as int, p)
            } else {
                old(self).phases_spec()
            },
            final(self).edges_spec() == old(self).edges_spec(),
            final(self).hinges_spec() == old(self).hinges_spec(),
            final(self).groups_spec() == old(self).groups_spec(),
    {
        if index < self.phase.len() {
            self.phase.set(index, p);
        }
        assert(self.phases_spec().len() == old(self).phases_spec().len());
        assert(self.edges_spec() == old(self).edges_spec());
        assert(self.hinges_spec() == old(self).hinges_spec());
        assert(self.groups_spec() == old(self).groups_spec());
    }

    /// Gives every particle phase `p`.
    pub fn set_all_particles_phase(&mut self, p: Phase)
        requires
            old(self).wf(),
        ensures
            final(self).wf(),
            phases_set(
                old(self).phases_spec(),
                final(self).phases_spec(),
                0,
                old(self).phases_spec().len() as int,
                p,
            ),
            final(self).edges_spec() == old(self).edges_spec(),
            final(self).hinges_spec() == old(self).hinges_spec(),
            final(self).groups_spec() == old(self).groups_spec(),
    {
        let n = self.phase.len();
        self.set_range(0, n, p);
    }
}

proof fn lemma_cell_bounds(k: int, cols: int, rows: int)
    requires
        0 < cols,
        0 <= k < cols * rows,
    ensures
        0 <= k % cols < cols,
        0 <= k / cols < rows,
{
    lemma_fundamental_div_mod(k, cols);
    let y = k / cols;
    assert(0 <= y < rows) by (nonlinear_arith)
        requires
            k == cols * y + k % cols,
            0 <= k % cols < cols,
            0 <= k < cols * rows,
            0 < cols,
    ;
}

proof fn lemma_point_bounds(start: int, width: int, height: int, x: int, y: int)
    requires
        0 <= x < width,
        0 <= y < height,
    ensures
        start <= point(start, width, x, y) < start + width * height,
        point(start, width, x, y + 1) == point(start, width, x, y) + width,
{
    assert(0 <= y * width + x < width * height) by (nonlinear_arith)
        requires
            0 <= x < width,
            0 <= y < height,
    ;
    assert((y + 1) * width == y * width + width) by (nonlinear_arith);
}

/// Every distance edge of a cloth joins two distinct particles of the cloth.
pub proof fn lemma_cloth_edge_in_cloth(start: int, width: int, height: int, k: int)
    requires
        0 <= start,
        0 <= width,
        0 <= height,
        0 <= k < n_cloth_edges(width, height),
    ensures
        start <= cloth_edge(start, width, height, k).0 < start + width * height,
        start <= cloth_edge(start, width, height, k).1 < start + width * height,
        cloth_edge(start, width, height, k).0 != cloth_edge(start, width, height, k).1,
{
    let nh = n_horizontal(width, height);
    let nv = n_vertical(width, height);
    let nd = n_squares(width, height);
    if k < nh {
        lemma_cell_bounds(k, width - 1, height);
        let x = k % (width - 1);
        let y = k / (width - 1);
        lemma_point_bounds(start, width, height, x, y);
        lemma_point_bounds(start, width, height, x + 1, y);
    } else if k < nh + nv {
        assert(width > 0 && height > 1) by (nonlinear_arith)
            requires
                nv > 0,
                nv == n_vertical(width, height),
        ;
        lemma_cell_bounds(k - nh, width, height - 1);
        let x = (k - nh) % width;
        let y = (k - nh) / width;
        lemma_point_bounds(start, width, height, x, y);
        lemma_point_bounds(start, width, height, x, y + 1);
    } else {
        assert(width > 1 && height > 1) by (nonlinear_arith)
            requires
                nd > 0,
                nd == n_squares(width, height),
        ;
        let kk = if k < nh + nv + nd {
            k - nh - nv
        } else {
            k - nh - nv - nd
        };
        lemma_cell_bounds(kk, width - 1, height - 1);
        let x = kk % (width - 1);
        let y = kk / (width - 1);
        lemma_point_bounds(start, width, height, x, y);
        lemma_point_bounds(start, width, height, x + 1, y);
        lemma_point_bounds(start, width, height, x, y + 1);
        lemma_point_bounds(start, width, height, x + 1, y + 1);
    }
}

/// Every bending hinge of a cloth names four distinct particles of the cloth.
pub proof fn lemma_cloth_hinge_in_cloth(start: int, width: int, height: int, k: int)
    requires
        0 <= start,
        0 <= width,
        0 <= height,
        0 <= k < n_cloth_hinges(width, height),
    ensures
        ({
            let e = cloth_hinge(start, width, height, k);
            &&& start <= e.0 < start + width * height
            &&& start <= e.1 < start + width * height
            &&& start <= e.2 < start + width * height
            &&& start <= e.3 < start + width * height
        }),
{
    let nd = n_squares(width, height);
    let nih = n_inner_horizontal(width, height);
    let niv = n_inner_vertical(width, height);
    if k < nd {
        assert(width > 1 && height > 1) by (nonlinear_arith)
            requires
                nd > 0,
                nd == n_squares(width, height),
        ;
        lemma_cell_bounds(k, width - 1, height - 1);
        let x = k % (width - 1);
        let y = k / (width - 1);
        lemma_point_bounds(start, width, height, x, y);
        lemma_point_bounds(start, width, height, x + 1, y);
        lemma_point_bounds(start, width, height, x, y + 1);
        lemma_point_bounds(start, width, height, x + 1, y + 1);
    } else if k < nd + nih {
        assert(width > 1 && height > 2) by (nonlinear_arith)
            requires
                nih > 0,
                nih == n_inner_horizontal(width, height),
        ;
        lemma_cell_bounds(k - nd, width - 1, height - 2);
        let x = (k - nd) % (width - 1);
        let y = (k - nd) / (width - 1) + 1;
        lemma_point_bounds(start, width, height, x, y);
        lemma_point_bounds(start, width, height, x + 1, y);
        lemma_point_bounds(start, width, height, x + 1, y + 1);
        lemma_point_bounds(start, width, height, x, y - 1);
    } else {
        assert(width > 2 && height > 1) by (nonlinear_arith)
            requires
                niv > 0,
                niv == n_inner_vertical(width, height),
        ;
        lemma_cell_bounds(k - nd - nih, width - 2, height - 1);
        let x = (k - nd - nih) % (width - 2) + 1;
        let y = (k - nd - nih) / (width - 2);
        lemma_point_bounds(start, width, height, x, y);
        lemma_point_bounds(start, width, height, x, y + 1);
        lemma_point_bounds(start, width, height, x + 1, y + 1);
        lemma_point_bounds(start, width, height, x - 1, y);
    }
}

} // verus!
