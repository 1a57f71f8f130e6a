use vstd::prelude::*;

verus! {

/// Integer coordinates of a grid cell.
pub type CellCoord = (i32, i32, i32);

pub const HASH_PRIME_X: u32 = 73856093;

pub const HASH_PRIME_Y: u32 = 19349663;

pub const HASH_PRIME_Z: u32 = 83492791;

/// Table slot of a cell: the three coordinates, each multiplied (mod 2^32) by its
/// prime, combined by xor, then reduced modulo the table size.
pub open spec fn cell_hash(c: CellCoord, table_size: nat) -> nat {
    let hx = (c.0 as u32).wrapping_mul(HASH_PRIME_X);
    let hy = (c.1 as u32).wrapping_mul(HASH_PRIME_Y);
    let hz = (c.2 as u32).wrapping_mul(HASH_PRIME_Z);
    ((hx ^ hy ^ hz) as nat) % table_size
}

/// Offset along one axis of the `k`-th cell of a 3x3x3 block (k in 0..27).
pub open spec fn block_offset_x(k: int) -> i32 {
    (k / 9 - 1) as i32
}

pub open spec fn block_offset_y(k: int) -> i32 {
    ((k / 3) % 3 - 1) as i32
}

pub open spec fn block_offset_z(k: int) -> i32 {
    (k % 3 - 1) as i32
}

/// The `k`-th cell (k in 0..27) of the 3x3x3 block centred on `c`;
/// coordinates wrap around at the ends of the `i32` range.
pub open spec fn block_cell(c: CellCoord, k: int) -> CellCoord {
    (
        c.0.wrapping_add(block_offset_x(k)),
        c.1.wrapping_add(block_offset_y(k)),
        c.2.wrapping_add(block_offset_z(k)),
    )
}

/// `d` lies in the 3x3x3 block centred on `c`: it differs from `c` by -1, 0 or 1
/// on each axis (with wrap-around).
pub open spec fn in_block(c: CellCoord, d: CellCoord) -> bool {
    exists|dx: i32, dy: i32, dz: i32|
        -1 <= dx <= 1 && -1 <= dy <= 1 && -1 <= dz <= 1 && d == (
            c.0.wrapping_add(dx),
            c.1.wrapping_add(dy),
            c.2.wrapping_add(dz),
        )
}

/// A cell whose table slot is one of the slots probed by a query centred on `c`.
pub open spec fn probed(c: CellCoord, d: CellCoord, table_size: nat) -> bool {
    exists|k: int| 0 <= k < 27 && #[trigger] cell_hash(block_cell(c, k), table_size) == cell_hash(d, table_size)
}

/// How many of the first `n` hashes equal `h`.
pub open spec fn count_eq(hs: Seq<u32>, n: int, h: int) -> nat
    decreases n,
{
    if n <= 0 {
        0
    } else {
        count_eq(hs, n - 1, h) + if hs[n - 1] as int == h {
            1nat
        } else {
            0nat
        }
    }
}

/// How many of the first `n` hashes are below `k`.
pub open spec fn count_below(hs: Seq<u32>, n: int, k: int) -> nat
    decreases n,
{
    if n <= 0 {
        0
    } else {
        count_below(hs, n - 1, k) + if (hs[n - 1] as int) < k {
            1nat
        } else {
            0nat
        }
    }
}

proof fn lemma_count_eq_le(hs: Seq<u32>, n: int, h: int)
    requires
        0 <= n,
    ensures
        count_eq(hs, n, h) <= n,
    decreases n,
{
    if n > 0 {
        lemma_count_eq_le(hs, n - 1, h);
    }
}

proof fn lemma_count_below_le(hs: Seq<u32>, n: int, k: int)
    requires
        0 <= n,
    ensures
        count_below(hs, n, k) <= n,
    decreases n,
{
    if n > 0 {
        lemma_count_below_le(hs, n - 1, k);
    }
}

proof fn lemma_count_below_step(hs: Seq<u32>, n: int, k: int)
    ensures
        count_below(hs, n, k + 1) == count_below(hs, n, k) + count_eq(hs, n, k),
    decreases n,
{
    if n > 0 {
        lemma_count_below_step(hs, n - 1, k);
    }
}

proof fn lemma_count_below_mono(hs: Seq<u32>, n: int, k1: int, k2: int)
    requires
        k1 <= k2,
    ensures
        count_below(hs, n, k1) <= count_below(hs, n, k2),
    decreases n,
{
    if n > 0 {
        lemma_count_below_mono(hs, n - 1, k1, k2);
    }
}

proof fn lemma_count_eq_mono(hs: Seq<u32>, i: int, n: int, h: int)
    requires
        i <= n,
    ensures
        count_eq(hs, i, h) <= count_eq(hs, n, h),
    decreases n - i,
{
    if i < n {
        lemma_count_eq_mono(hs, i, n - 1, h);
    }
}

proof fn lemma_count_eq_prefix(a: Seq<u32>, b: Seq<u32>, n: int, h: int)
    requires
        n <= a.len(),
        n <= b.len(),
        forall|j: int| 0 <= j < n ==> a[j] == b[j],
    ensures
        count_eq(a, n, h) == count_eq(b, n, h),
    decreases n,
{
    if n > 0 {
        lemma_count_eq_prefix(a, b, n - 1, h);
    }
}

proof fn lemma_count_below_zero(hs: Seq<u32>, n: int)
    ensures
        count_below(hs, n, 0) == 0,
    decreases n,
{
    if n > 0 {
        lemma_count_below_zero(hs, n - 1);
    }
}

proof fn lemma_push_keeps(s: Seq<u32>, v: u32, x: u32)
    ensures
        s.contains(x) ==> s.push(v).contains(x),
        s.push(v).contains(v),
{
    if s.contains(x) {
        let w = choose|w: int| 0 <= w < s.len() && s[w] == x;
        assert(s.push(v)[w] == x);
    }
    assert(s.push(v)[s.len() as int] == v);
}

/// Bucket `h` (its slots start at `count_below(h)`) and bucket `h2 > h` do not overlap.
proof fn lemma_buckets_apart(hs: Seq<u32>, n: int, h: int, h2: int)
    requires
        h < h2,
    ensures
        count_below(hs, n, h) + count_eq(hs, n, h) <= count_below(hs, n, h2),
{
    lemma_count_below_step(hs, n, h);
    lemma_count_below_mono(hs, n, h + 1, h2);
}

/// During the scatter, a filled place `p` of slot `q` is below `n` and is not the
/// next free place of slot `hh`, the slot of particle `i`.
proof fn lemma_place_fresh(hs: Seq<u32>, n: int, i: int, q: int, hh: int, p: int)
    requires
        0 <= i < n <= hs.len(),
        hs[i] as int == hh,
        count_below(hs, n, q) <= p < count_below(hs, n, q) + count_eq(hs, i, q),
    ensures
        p != count_below(hs, n, hh) + count_eq(hs, i, hh),
        p < n,
{
    lemma_count_eq_mono(hs, i, n, q);
    lemma_count_below_step(hs, n, q);
    lemma_count_below_le(hs, n, q + 1);
    lemma_count_eq_mono(hs, i + 1, n, hh);
    if q < hh {
        lemma_buckets_apart(hs, n, q, hh);
    } else if q > hh {
        lemma_buckets_apart(hs, n, hh, q);
    }
}

/// Uniform hash grid over integer cell coordinates.
///
/// `build` sorts the particle indices by the table slot of their cell (a counting
/// sort); `query_neighbors` lists the particles of the 27 slots around a cell.
pub struct SpatialHashGrid {
    table_size: usize,
    /// Particles per slot.
    cell_count: Vec<u32>,
    /// Where each slot's particles begin in `sorted_indices`.
    cell_start: Vec<u32>,
    /// Particle indices grouped by slot.
    sorted_indices: Vec<u32>,
    /// Slot of each particle.
    particle_hashes: Vec<u32>,
    /// Particles in the last build.
    built: usize,
    /// Cells of the particles in the last build.
    cells: Ghost<Seq<CellCoord>>,
    /// Where each particle stands in `sorted_indices`.
    slot: Ghost<Seq<int>>,
}

impl SpatialHashGrid {
    pub closed spec fn table_size_spec(&self) -> nat {
        self.table_size as nat
    }

    /// Most particles that one build may hold.
    pub closed spec fn capacity(&self) -> nat {
        self.sorted_indices@.len()
    }

    /// Cells of the particles of the last build, by particle index.
    pub closed spec fn cells_spec(&self) -> Seq<CellCoord> {
        self.cells@
    }

    /// Position `k` of `sorted_indices` belongs to slot `h`.
    pub closed spec fn in_bucket(&self, h: int, k: int) -> bool {
        self.cell_start@[h] <= k < self.cell_start@[h] + self.cell_count@[h]
    }

    pub closed spec fn wf(&self) -> bool {
        let t = self.table_size as int;
        let n = self.built as int;
        let start = self.cell_start@;
        let cnt = self.cell_count@;
        let sorted = self.sorted_indices@;
        let ph = self.particle_hashes@;
        &&& 0 < t <= u32::MAX
        &&& cnt.len() == t
        &&& start.len() == t
        &&& n <= sorted.len()
        &&& sorted.len() == ph.len()
        &&& sorted.len() <= u32::MAX
        &&& self.cells@.len() == n
        &&& self.slot@.len() == n
        &&& forall|j: int| 0 <= j < n ==> (#[trigger] ph[j]) as nat == cell_hash(self.cells@[j], t as nat)
        &&& forall|h: int| 0 <= h < t ==> #[trigger] start[h] + cnt[h] <= n
        &&& forall|h: int, k: int|
            0 <= h < t && #[trigger] self.in_bucket(h, k) ==> sorted[k] < n && ph[sorted[k] as int] == h
                && self.slot@[sorted[k] as int] == k
        &&& forall|j: int|
            0 <= j < n ==> {
                let h = ph[j] as int;
                &&& self.in_bucket(h, #[trigger] self.slot@[j])
                &&& sorted[self.slot@[j]] == j
            }
    }

    /// What a query centred on `c` lists, given the cells of the last build: only
    /// built particles whose cell shares a slot with a cell of the block, and every
    /// such particle.
    pub open spec fn query_spec(&self, c: CellCoord, r: Seq<u32>) -> bool {
        let cells = self.cells_spec();
        &&& forall|t: int|
            0 <= t < r.len() ==> (#[trigger] r[t] as int) < cells.len() && probed(
                c,
                cells[r[t] as int],
                self.table_size_spec(),
            )
        &&& forall|j: int|
            0 <= j < cells.len() && probed(c, #[trigger] cells[j], self.table_size_spec())
                ==> r.contains(j as u32)
    }

    /// An empty grid with `table_size` slots, for builds of up to `max_particles`.
    pub fn new(table_size: usize, max_particles: usize) -> (g: Self)
        requires
            0 < table_size <= u32::MAX,
            max_particles <= u32::MAX,
        ensures
            g.wf(),
            g.table_size_spec() == table_size,
            g.capacity() == max_particles,
            g.cells_spec().len() == 0,
    {
        let mut cell_count: Vec<u32> = Vec::new();
        let mut cell_start: Vec<u32> = Vec::new();
        let mut h: usize = 0;
        while h < table_size
            invariant
                h <= table_size,
                cell_count@.len() == h,
                cell_start@.len() == h,
                forall|k: int| 0 <= k < h ==> cell_count@[k] == 0 && cell_start@[k] == 0,
            decreases table_size - h,
        {
            cell_count.push(0);
            cell_start.push(0);
            h += 1;
        }
        let mut sorted_indices: Vec<u32> = Vec::new();
        let mut particle_hashes: Vec<u32> = Vec::new();
        let mut i: usize = 0;
        while i < max_particles
            invariant
                i <= max_particles,
                sorted_indices@.len() == i,
                particle_hashes@.len() == i,
            decreases max_particles - i,
        {
            sorted_indices.push(0);
            particle_hashes.push(0);
            i += 1;
        }
        SpatialHashGrid {
            table_size,
            cell_count,
            cell_start,
            sorted_indices,
            particle_hashes,
            built: 0,
            cells: Ghost(Seq::empty()),
            slot: Ghost(Seq::empty()),
        }
    }

    /// Sorts the first `count` particles, whose cells are `cells[0..count]`, by the
    /// table slot of their cell (counting sort: count, prefix sum, scatter).
    pub fn build(&mut self, cells: &Vec<CellCoord>, count: usize)
        requires
            old(self).wf(),
            count <= cells@.len(),
            count <= old(self).capacity(),
        ensures
            final(self).wf(),
            final(self).table_size_spec() == old(self).table_size_spec(),
            final(self).capacity() == old(self).capacity(),
            final(self).cells_spec() == cells@.take(count as int),
    {
        let t = self.table_size;
        let mut cnt: Vec<u32> = Vec::new();
        let mut start: Vec<u32> = Vec::new();
        let mut sorted: Vec<u32> = Vec::new();
        let mut ph: Vec<u32> = Vec::new();
        std::mem::swap(&mut cnt, &mut self.cell_count);
        std::mem::swap(&mut start, &mut self.cell_start);
        std::mem::swap(&mut sorted, &mut self.sorted_indices);
        std::mem::swap(&mut ph, &mut self.particle_hashes);
        let ghost cap = sorted@.len() as int;
        let ghost n = count as int;

        // Empty every slot.
        let mut h: usize = 0;
        while h < t
            invariant
                0 < t <= u32::MAX,
                cnt@.len() == t,
                h <= t,
                forall|k: int| 0 <= k < h ==> cnt@[k] == 0,
            decreases t - h,
        {
            cnt.set(h, 0);
            h += 1;
        }

        // Slot of each particle, and the number of particles per slot.
        let mut i: usize = 0;
        while i < count
            invariant
                0 < t <= u32::MAX,
                t == self.table_size,
                cnt@.len() == t,
                ph@.len() == cap,
                count <= cap <= u32::MAX,
                count <= cells@.len(),
                n == count,
                i <= count,
                forall|j: int|
                    0 <= j < i ==> (#[trigger] ph@[j]) < t && ph@[j] as nat == cell_hash(
                        cells@[j],
                        t as nat,
                    ),
                forall|k: int| 0 <= k < t ==> #[trigger] cnt@[k] == count_eq(ph@, i as int, k),
            decreases count - i,
        {
            let hi = self.hash_cell(cells[i]);
            let ghost before = ph@;
            ph.set(i, hi as u32);
            proof {
                lemma_count_eq_le(before, i as int, hi as int);
                assert forall|k: int| 0 <= k < t implies count_eq(ph@, i + 1, k) == count_eq(
                    before,
                    i as int,
                    k,
                ) + if k == hi {
                    1nat
                } else {
                    0nat
                } by {
                    lemma_count_eq_prefix(before, ph@, i as int, k);
                }
            }
            let c = cnt[hi];
            cnt.set(hi, c + 1);
            i += 1;
        }

        // Where each slot begins: the number of particles in lower slots.
        start.set(0, 0);
        proof {
            lemma_count_below_zero(ph@, n);
        }
        let mut k: usize = 1;
        while k < t
            invariant
                1 <= k <= t,
                t <= u32::MAX,
                start@.len() == t,
                cnt@.len() == t,
                count <= u32::MAX,
                n == count,
                ph@.len() == cap,
                count <= cap,
                forall|j: int| 0 <= j < n ==> (#[trigger] ph@[j]) < t,
                forall|q: int| 0 <= q < k ==> #[trigger] start@[q] as int == count_below(ph@, n, q),
                forall|q: int| 0 <= q < t ==> #[trigger] cnt@[q] == count_eq(ph@, n, q),
            decreases t - k,
        {
            proof {
                lemma_count_below_step(ph@, n, k - 1);
                lemma_count_below_le(ph@, n, k as int);
            }
            let s = start[k - 1] + cnt[k - 1];
            start.set(k, s);
            k += 1;
        }

        // Empty every slot again: the counts now serve as write cursors.
        let mut h: usize = 0;
        while h < t
            invariant
                cnt@.len() == t,
                h <= t,
                forall|k: int| 0 <= k < h ==> cnt@[k] == 0,
                n == count,
                start@.len() == t,
                forall|q: int| 0 <= q < t ==> #[trigger] start@[q] as int == count_below(ph@, n, q),
                forall|j: int| 0 <= j < n ==> (#[trigger] ph@[j]) < t,
            decreases t - h,
        {
            cnt.set(h, 0);
            h += 1;
        }
        proof {
            assert forall|q: int| 0 <= q < t implies #[trigger] cnt@[q] == count_eq(ph@, 0, q) by {}
        }

        // Scatter each particle into the next free place of its slot.
        let ghost mut slot: Seq<int> = Seq::empty();
        let mut i: usize = 0;
        while i < count
            invariant
                0 < t <= u32::MAX,
                i <= count,
                n == count,
                count <= cap <= u32::MAX,
                cnt@.len() == t,
                start@.len() == t,
                sorted@.len() == cap,
                ph@.len() == cap,
                slot.len() == i,
                forall|j: int| 0 <= j < n ==> (#[trigger] ph@[j]) < t,
                forall|q: int| 0 <= q < t ==> #[trigger] start@[q] as int == count_below(ph@, n, q),
                forall|q: int| 0 <= q < t ==> #[trigger] cnt@[q] == count_eq(ph@, i as int, q),
                forall|q: int, p: int|
                    0 <= q < t && start@[q] <= p < start@[q] + cnt@[q] ==> (#[trigger] sorted@[p]) < i
                        && ph@[sorted@[p] as int] == q && slot[sorted@[p] as int] == p && #[trigger] start@[q]
                        == start@[q],
                forall|j: int|
                    0 <= j < i ==> {
                        let q = ph@[j] as int;
                        &&& start@[q] <= #[trigger] slot[j] < start@[q] + cnt@[q]
                        &&& sorted@[slot[j]] == j
                    },
            decreases count - i,
        {
            let hh = ph[i] as usize;
            proof {
                lemma_count_eq_mono(ph@, i + 1, n, hh as int);
                lemma_count_below_step(ph@, n, hh as int);
                lemma_count_below_le(ph@, n, hh + 1);
            }
            let idx = start[hh] + cnt[hh];
            let ghost sorted_before = sorted@;
            let ghost cnt_before = cnt@;
            sorted.set(idx as usize, i as u32);
            cnt.set(hh, cnt[hh] + 1);
            proof {
                slot = slot.push(idx as int);
                assert forall|q: int, p: int|
                    0 <= q < t && start@[q] <= p < start@[q] + cnt@[q] implies (#[trigger] sorted@[p]) < i
                    + 1 && ph@[sorted@[p] as int] == q && slot[sorted@[p] as int] == p && #[trigger] start@[q]
                    == start@[q] by {
                    if p != idx {
                        if q == hh {
                            assert(p < start@[q] + cnt_before[q]);
                        }
                        lemma_place_fresh(ph@, n, i as int, q, hh as int, p);
                        assert(sorted_before[p] == sorted@[p]);
                        assert(start@[q] == start@[q]);
                    } else {
                        if q != hh {
                            lemma_place_fresh(ph@, n, i as int, q, hh as int, p);
                        }
                    }
                }
                assert forall|j: int| 0 <= j < i + 1 implies {
                    let q = ph@[j] as int;
                    &&& start@[q] <= #[trigger] slot[j] < start@[q] + cnt@[q]
                    &&& sorted@[slot[j]] == j
                } by {
                    if j < i {
                        let q = ph@[j] as int;
                        assert(start@[q] <= slot[j] < start@[q] + cnt_before[q]);
                        assert(sorted_before[slot[j]] == j);
                        lemma_place_fresh(ph@, n, i as int, q, hh as int, slot[j]);
                    }
                }
            }
            i += 1;
        }

        self.cell_count = cnt;
        self.cell_start = start;
        self.sorted_indices = sorted;
        self.particle_hashes = ph;
        self.built = count;
        self.cells = Ghost(cells@.take(count as int));
        self.slot = Ghost(slot);
        proof {
            assert forall|q: int, p: int|
                0 <= q < t && #[trigger] self.in_bucket(q, p) implies self.sorted_indices@[p] < n
                && self.particle_hashes@[self.sorted_indices@[p] as int] == q && self.slot@[self.sorted_indices@[p] as int]
                == p by {
                assert(self.cell_start@[q] == self.cell_start@[q]);
            }
            assert forall|q: int| 0 <= q < t implies #[trigger] self.cell_start@[q] + self.cell_count@[q]
                <= n by {
                lemma_count_below_step(self.particle_hashes@, n, q);
                lemma_count_below_le(self.particle_hashes@, n, q + 1);
            }
        }
    }

    /// Appends the particles of slot `h` to `r`, which holds none of them yet.
    fn append_slot(&self, h: usize, r: &mut Vec<u32>)
        requires
            self.wf(),
            h < self.table_size_spec(),
            old(r)@.no_duplicates(),
            forall|p: int|
                0 <= p < old(r)@.len() ==> (#[trigger] old(r)@[p] as int) < self.cells_spec().len()
                    && self.particle_hashes@[old(r)@[p] as int] != h,
        ensures
            final(r)@.no_duplicates(),
            final(r)@.len() >= old(r)@.len(),
            forall|p: int| 0 <= p < old(r)@.len() ==> #[trigger] final(r)@[p] == old(r)@[p],
            forall|p: int|
                old(r)@.len() <= p < final(r)@.len() ==> (#[trigger] final(r)@[p] as int) < self.cells_spec().len()
                    && self.particle_hashes@[final(r)@[p] as int] == h,
            forall|j: int|
                0 <= j < self.cells_spec().len() && #[trigger] self.particle_hashes@[j] == h
                    ==> final(r)@.contains(j as u32),
    {
        let ghost n = self.built as int;
        let ghost r0 = r@;
        assert(self.cell_start@[h as int] + self.cell_count@[h as int] <= n);
        let s = self.cell_start[h] as usize;
        let e = s + self.cell_count[h] as usize;
        let mut idx = s;
        while idx < e
            invariant
                self.wf(),
                n == self.built,
                h < self.table_size,
                s == self.cell_start@[h as int],
                e == self.cell_start@[h as int] + self.cell_count@[h as int],
                e <= n,
                s <= idx <= e,
                r@.len() >= r0.len(),
                forall|p: int| 0 <= p < r0.len() ==> #[trigger] r@[p] == r0[p],
                forall|p: int|
                    0 <= p < r0.len() ==> (#[trigger] r0[p] as int) < n && self.particle_hashes@[r0[p] as int] != h,
                forall|p: int|
                    r0.len() <= p < r@.len() ==> (#[trigger] r@[p] as int) < n && self.particle_hashes@[r@[p] as int]
                        == h && self.slot@[r@[p] as int] < idx,
                forall|j: int|
                    0 <= j < n && self.particle_hashes@[j] == h && #[trigger] self.slot@[j] < idx
                        ==> r@.contains(j as u32),
                r@.no_duplicates(),
            decreases e - idx,
        {
            assert(self.in_bucket(h as int, idx as int));
            let v = self.sorted_indices[idx];
            let ghost before = r@;
            proof {
                assert forall|p: int| 0 <= p < before.len() implies before[p] != v by {
                    if p < r0.len() {
                        assert(before[p] == r0[p]);
                    }
                }
            }
            r.push(v);
            proof {
                assert forall|a: int, b: int| 0 <= a < r@.len() && 0 <= b < r@.len() && a != b implies r@[a]
                    != r@[b] by {
                    if a < before.len() && b < before.len() {
                        assert(r@[a] == before[a] && r@[b] == before[b]);
                    } else if a < before.len() {
                        assert(r@[a] == before[a]);
                    } else if b < before.len() {
                        assert(r@[b] == before[b]);
                    }
                }
                assert forall|j: int|
                    0 <= j < n && self.particle_hashes@[j] == h && #[trigger] self.slot@[j] < idx + 1 implies r@.contains(
                    j as u32,
                ) by {
                    lemma_push_keeps(before, v, j as u32);
                    if self.slot@[j] == idx {
                        assert(self.sorted_indices@[self.slot@[j]] == j);
                    }
                }
                assert forall|p: int|
                    r0.len() <= p < r@.len() implies (#[trigger] r@[p] as int) < n && self.particle_hashes@[r@[p] as int]
                    == h && self.slot@[r@[p] as int] < idx + 1 by {
                    if p < before.len() {
                        assert(r@[p] == before[p]);
                    }
                }
                assert forall|p: int| 0 <= p < r0.len() implies #[trigger] r@[p] == r0[p] by {
                    assert(r@[p] == before[p]);
                }
            }
            idx += 1;
        }
        proof {
            assert forall|j: int|
                0 <= j < self.cells_spec().len() && #[trigger] self.particle_hashes@[j] == h implies r@.contains(
                j as u32,
            ) by {
                assert(self.in_bucket(h as int, self.slot@[j]));
            }
        }
    }

    /// Particles of the table slots of the 3x3x3 block of cells centred on `c`,
    /// each slot probed once, so that no particle is listed twice.
    ///
    /// A superset of the particles whose cell lies in the block: a particle whose
    /// cell merely shares a slot with a block cell is listed too. The caller
    /// filters by distance.
    pub fn query_neighbors(&self, c: CellCoord) -> (r: Vec<u32>)
        requires
            self.wf(),
        ensures
            self.query_spec(c, r@),
            r@.no_duplicates(),
    {
        let ghost n = self.built as int;
        let ghost t = self.table_size as nat;
        let mut r: Vec<u32> = Vec::new();
        let mut seen: Vec<usize> = Vec::new();
        let mut k: usize = 0;
        while k < 27
            invariant
                self.wf(),
                n == self.built,
                n == self.cells_spec().len(),
                t == self.table_size,
                k <= 27,
                forall|x: int|
                    0 <= x < seen@.len() ==> exists|kk: int|
                        0 <= kk < k && #[trigger] seen@[x] as nat == cell_hash(block_cell(c, kk), t),
                forall|kk: int| 0 <= kk < k ==> seen@.contains(#[trigger] cell_hash(block_cell(c, kk), t) as usize),
                forall|p: int|
                    0 <= p < r@.len() ==> (#[trigger] r@[p] as int) < n && seen@.contains(
                        self.particle_hashes@[r@[p] as int] as usize,
                    ),
                forall|j: int|
                    0 <= j < n && seen@.contains(#[trigger] self.particle_hashes@[j] as usize) ==> r@.contains(
                        j as u32,
                    ),
                r@.no_duplicates(),
            decreases 27 - k,
        {
            let dx = (k / 9) as i32 - 1;
            let dy = ((k / 3) % 3) as i32 - 1;
            let dz = (k % 3) as i32 - 1;
            let cell = (c.0.wrapping_add(dx), c.1.wrapping_add(dy), c.2.wrapping_add(dz));
            assert(cell == block_cell(c, k as int));
            let h = self.hash_cell(cell);
            let mut already = false;
            let mut si: usize = 0;
            while si < seen.len()
                invariant
                    si <= seen@.len(),
                    already <==> exists|x: int| 0 <= x < si && seen@[x] == h,
                decreases seen@.len() - si,
            {
                if seen[si] == h {
                    already = true;
                }
                si += 1;
            }
            let ghost seen_before = seen@;
            let ghost r_before = r@;
            if !already {
                proof {
                    assert forall|p: int| 0 <= p < r@.len() implies (#[trigger] r@[p] as int) < self.cells_spec().len()
                        && self.particle_hashes@[r@[p] as int] != h by {
                        if self.particle_hashes@[r@[p] as int] == h {
                            let x = choose|x: int| 0 <= x < seen@.len() && seen@[x] == h;
                        }
                    }
                }
                self.append_slot(h, &mut r);
                seen.push(h);
                proof {
                    assert(seen@ == seen_before.push(h));
                    assert forall|x: usize| seen_before.contains(x) implies seen@.contains(x) by {
                        let w = choose|w: int| 0 <= w < seen_before.len() && seen_before[w] == x;
                        assert(seen@[w] == x);
                    }
                    assert(seen@[seen_before.len() as int] == h);
                    assert forall|p: int|
                        0 <= p < r@.len() implies (#[trigger] r@[p] as int) < n && seen@.contains(
                        self.particle_hashes@[r@[p] as int] as usize,
                    ) by {
                        if p < r_before.len() {
                            assert(r@[p] == r_before[p]);
                        }
                    }
                    assert forall|j: int|
                        0 <= j < n && seen@.contains(#[trigger] self.particle_hashes@[j] as usize) implies r@.contains(
                        j as u32,
                    ) by {
                        if self.particle_hashes@[j] != h {
                            let w = choose|w: int| 0 <= w < seen@.len() && seen@[w] == self.particle_hashes@[j] as usize;
                            assert(seen_before[w] == seen@[w]);
                            assert(r_before.contains(j as u32));
                            let w2 = choose|w2: int| 0 <= w2 < r_before.len() && r_before[w2] == j as u32;
                            assert(r@[w2] == j as u32);
                        }
                    }
                    assert forall|x: int| 0 <= x < seen@.len() implies exists|kk: int|
                        0 <= kk < k + 1 && #[trigger] seen@[x] as nat == cell_hash(block_cell(c, kk), t) by {
                        if x < seen_before.len() {
                            assert(seen@[x] == seen_before[x]);
                            let kk = choose|kk: int|
                                0 <= kk < k && #[trigger] seen_before[x] as nat == cell_hash(block_cell(c, kk), t);
                        } else {
                            assert(seen@[x] as nat == cell_hash(block_cell(c, k as int), t));
                        }
                    }
                }
            } else {
                proof {
                    let x = choose|x: int| 0 <= x < si && seen@[x] == h;
                    assert(seen@.contains(h));
                    assert forall|x2: int| 0 <= x2 < seen@.len() implies exists|kk: int|
                        0 <= kk < k + 1 && #[trigger] seen@[x2] as nat == cell_hash(block_cell(c, kk), t) by {
                        let kk = choose|kk: int| 0 <= kk < k && #[trigger] seen@[x2] as nat == cell_hash(block_cell(c, kk), t);
                    }
                }
            }
            k += 1;
        }
        proof {
            let cells = self.cells_spec();
            assert forall|p: int| 0 <= p < r@.len() implies (#[trigger] r@[p] as int) < cells.len()
                && probed(c, cells[r@[p] as int], self.table_size_spec()) by {
                let j = r@[p] as int;
                let w = choose|w: int| 0 <= w < seen@.len() && seen@[w] == self.particle_hashes@[j] as usize;
                let kk = choose|kk: int| 0 <= kk < 27 && #[trigger] seen@[w] as nat == cell_hash(block_cell(c, kk), t);
                assert(self.particle_hashes@[j] as nat == cell_hash(cells[j], t));
                assert(cell_hash(block_cell(c, kk), t) == cell_hash(cells[j], t));
            }
            assert forall|j: int|
                0 <= j < cells.len() && probed(c, #[trigger] cells[j], self.table_size_spec())
                    implies r@.contains(j as u32) by {
                let kk = choose|kk: int|
                    0 <= kk < 27 && #[trigger] cell_hash(block_cell(c, kk), t) == cell_hash(cells[j], t);
                assert(self.particle_hashes@[j] as nat == cell_hash(cells[j], t));
                assert(seen@.contains(cell_hash(block_cell(c, kk), t) as usize));
            }
        }
        r
    }

    /// Most particles that one build may hold.
    pub fn max_particles(&self) -> (r: usize)
        requires
            self.wf(),
        ensures
            r == self.capacity(),
    {
        self.sorted_indices.len()
    }

    /// Number of particles in the last build.
    pub fn len(&self) -> (r: usize)
        requires
            self.wf(),
        ensures
            r == self.cells_spec().len(),
    {
        self.built
    }

    /// Broad phase of contact detection: each pair `(i, j)`, `i < j`, of built
    /// particles where a query centred on `i`'s cell lists `j`. `cells` holds the
    /// cells that the grid was built from.
    pub fn candidate_pairs(&self, cells: &Vec<CellCoord>) -> (r: Vec<(u32, u32)>)
        requires
            self.wf(),
            self.cells_spec().len() <= cells@.len(),
            forall|k: int| 0 <= k < self.cells_spec().len() ==> cells@[k] == #[trigger] self.cells_spec()[k],
        ensures
            forall|t: int|
                0 <= t < r@.len() ==> (#[trigger] r@[t]).0 < r@[t].1 && (r@[t].1 as int) < self.cells_spec().len()
                    && probed(
                    self.cells_spec()[r@[t].0 as int],
                    self.cells_spec()[r@[t].1 as int],
                    self.table_size_spec(),
                ),
            forall|i: int, j: int|
                0 <= i < j < self.cells_spec().len() && probed(
                    #[trigger] self.cells_spec()[i],
                    #[trigger] self.cells_spec()[j],
                    self.table_size_spec(),
                ) ==> r@.contains((i as u32, j as u32)),
            r@.no_duplicates(),
    {
        let n = self.built;
        let ghost cs = self.cells_spec();
        let ghost t = self.table_size_spec();
        let mut r: Vec<(u32, u32)> = Vec::new();
        let mut i: usize = 0;
        while i < n
            invariant
                self.wf(),
                n == cs.len(),
                cs == self.cells_spec(),
                t == self.table_size_spec(),
                n <= cells@.len(),
                forall|k: int| 0 <= k < n ==> cells@[k] == #[trigger] cs[k],
                i <= n,
                forall|p: int|
                    0 <= p < r@.len() ==> (#[trigger] r@[p]).0 < r@[p].1 && (r@[p].1 as int) < n && (r@[p].0 as int)
                        < i && probed(cs[r@[p].0 as int], cs[r@[p].1 as int], t),
                forall|a: int, b: int|
                    0 <= a < i && a < b < n && probed(#[trigger] cs[a], #[trigger] cs[b], t) ==> r@.contains(
                        (a as u32, b as u32),
                    ),
                r@.no_duplicates(),
            decreases n - i,
        {
            let q = self.query_neighbors(cells[i]);
            assert(n <= u32::MAX) by {
                assert(n <= self.capacity());
            }
            let mut m: usize = 0;
            while m < q.len()
                invariant
                    self.wf(),
                    n == cs.len(),
                    cs == self.cells_spec(),
                    t == self.table_size_spec(),
                    n <= u32::MAX,
                    i < n,
                    cells@[i as int] == cs[i as int],
                    self.query_spec(cs[i as int], q@),
                    m <= q@.len(),
                    forall|p: int|
                        0 <= p < r@.len() ==> (#[trigger] r@[p]).0 < r@[p].1 && (r@[p].1 as int) < n && (
                        r@[p].0 as int) <= i && probed(cs[r@[p].0 as int], cs[r@[p].1 as int], t),
                    forall|a: int, b: int|
                        0 <= a < i && a < b < n && probed(#[trigger] cs[a], #[trigger] cs[b], t)
                            ==> r@.contains((a as u32, b as u32)),
                    forall|p: int|
                        0 <= p < m && (i as u32) < #[trigger] q@[p] ==> r@.contains((i as u32, q@[p])),
                    q@.no_duplicates(),
                    r@.no_duplicates(),
                    forall|p: int|
                        0 <= p < r@.len() && (#[trigger] r@[p]).0 == i ==> exists|pp: int|
                            0 <= pp < m && q@[pp] == r@[p].1,
                decreases q@.len() - m,
            {
                let j = q[m];
                if j > i as u32 {
                    let ghost before = r@;
                    proof {
                        assert forall|p: int| 0 <= p < before.len() implies before[p] != (i as u32, j) by {
                            if before[p].0 == i {
                                let pp = choose|pp: int| 0 <= pp < m && q@[pp] == before[p].1;
                                assert(q@[pp] != q@[m as int]);
                            }
                        }
                    }
                    r.push((i as u32, j));
                    proof {
                        assert forall|a: int, b: int| 0 <= a < r@.len() && 0 <= b < r@.len() && a != b implies r@[a]
                            != r@[b] by {
                            if a < before.len() && b < before.len() {
                                assert(r@[a] == before[a] && r@[b] == before[b]);
                            } else if a < before.len() {
                                assert(r@[a] == before[a]);
                            } else if b < before.len() {
                                assert(r@[b] == before[b]);
                            }
                        }
                        assert forall|p: int| 0 <= p < r@.len() && (#[trigger] r@[p]).0 == i implies exists|pp: int|
                            0 <= pp < m + 1 && q@[pp] == r@[p].1 by {
                            if p < before.len() {
                                assert(r@[p] == before[p]);
                                let pp = choose|pp: int| 0 <= pp < m && q@[pp] == before[p].1;
                            } else {
                                assert(q@[m as int] == r@[p].1);
                            }
                        }
                        assert forall|x: (u32, u32)| before.contains(x) implies r@.contains(x) by {
                            let w = choose|w: int| 0 <= w < before.len() && before[w] == x;
                            assert(r@[w] == x);
                        }
                        assert(r@[before.len() as int] == (i as u32, j));
                        assert forall|p: int| 0 <= p < r@.len() implies (#[trigger] r@[p]).0 < r@[p].1 && (
                        r@[p].1 as int) < n && (r@[p].0 as int) <= i && probed(
                            cs[r@[p].0 as int],
                            cs[r@[p].1 as int],
                            t,
                        ) by {
                            if p < before.len() {
                                assert(r@[p] == before[p]);
                            }
                        }
                    }
                }
                m += 1;
            }
            proof {
                assert forall|a: int, b: int|
                    0 <= a < i + 1 && a < b < n && probed(#[trigger] cs[a], #[trigger] cs[b], t)
                        implies r@.contains((a as u32, b as u32)) by {
                    if a == i {
                        assert(q@.contains(b as u32));
                        let p = choose|p: int| 0 <= p < q@.len() && q@[p] == b as u32;
                        assert((i as u32) < q@[p]);
                    }
                }
            }
            i += 1;
        }
        r
    }

    /// Table slot of a cell.
    pub fn hash_cell(&self, c: CellCoord) -> (h: usize)
        requires
            self.table_size_spec() > 0,
        ensures
            h as nat == cell_hash(c, self.table_size_spec()),
            h < self.table_size_spec(),
    {
        let hx = (c.0 as u32).wrapping_mul(HASH_PRIME_X);
        let hy = (c.1 as u32).wrapping_mul(HASH_PRIME_Y);
        let hz = (c.2 as u32).wrapping_mul(HASH_PRIME_Z);
        ((hx ^ hy ^ hz) as usize) % self.table_size
    }
}

/// Every cell of the 3x3x3 block around `c` is probed by a query centred on `c`.
pub proof fn lemma_block_cells_probed(c: CellCoord, d: CellCoord, table_size: nat)
    requires
        in_block(c, d),
    ensures
        probed(c, d, table_size),
{
    let (dx, dy, dz) = choose|dx: i32, dy: i32, dz: i32|
        -1 <= dx <= 1 && -1 <= dy <= 1 && -1 <= dz <= 1 && d == (
            c.0.wrapping_add(dx),
            c.1.wrapping_add(dy),
            c.2.wrapping_add(dz),
        );
    let k = (dx + 1) * 9 + (dy + 1) * 3 + (dz + 1);
    assert(block_offset_x(k) == dx && block_offset_y(k) == dy && block_offset_z(k) == dz) by (nonlinear_arith)
        requires
            -1 <= dx <= 1,
            -1 <= dy <= 1,
            -1 <= dz <= 1,
            k == (dx + 1) * 9 + (dy + 1) * 3 + (dz + 1),
    ;
    assert(block_cell(c, k) == d);
    assert(cell_hash(block_cell(c, k), table_size) == cell_hash(d, table_size));
}

/// Grid completeness: after a build, a query centred on any cell of the 3x3x3 block
/// around a built particle's cell (its own cell included) lists that particle.
pub proof fn lemma_query_finds_block_particles(
    g: &SpatialHashGrid,
    c: CellCoord,
    r: Seq<u32>,
    j: int,
)
    requires
        g.query_spec(c, r),
        0 <= j < g.cells_spec().len(),
        in_block(c, g.cells_spec()[j]),
    ensures
        r.contains(j as u32),
{
    lemma_block_cells_probed(c, g.cells_spec()[j], g.table_size_spec());
}

/// Contact broad phase completeness: two built particles whose cells are in one
/// another's 3x3x3 block form a candidate pair.
pub proof fn lemma_candidate_pairs_complete(g: &SpatialHashGrid, r: Seq<(u32, u32)>, i: int, j: int)
    requires
        forall|a: int, b: int|
            0 <= a < b < g.cells_spec().len() && probed(
                #[trigger] g.cells_spec()[a],
                #[trigger] g.cells_spec()[b],
                g.table_size_spec(),
            ) ==> r.contains((a as u32, b as u32)),
        0 <= i < j < g.cells_spec().len(),
        in_block(g.cells_spec()[i], g.cells_spec()[j]),
    ensures
        r.contains((i as u32, j as u32)),
{
    lemma_block_cells_probed(g.cells_spec()[i], g.cells_spec()[j], g.table_size_spec());
}

/// A query centred on a built particle's own cell lists that particle.
pub proof fn lemma_query_finds_own_particle(g: &SpatialHashGrid, r: Seq<u32>, j: int)
    requires
        0 <= j < g.cells_spec().len(),
        g.query_spec(g.cells_spec()[j], r),
    ensures
        r.contains(j as u32),
{
    let c = g.cells_spec()[j];
    assert(c.0.wrapping_add(0) == c.0 && c.1.wrapping_add(0) == c.1 && c.2.wrapping_add(0) == c.2);
    assert(in_block(c, c));
    lemma_query_finds_block_particles(g, c, r, j);
}

} // verus!
