//! The reconstruction worker: a fixed registry of per-component slots, each
//! holding a write cursor, a growing plane buffer, a component descriptor and
//! a shared quantization table.  `start` opens a session for a slot,
//! `append_row` transforms one MCU row of coefficients into the plane, and
//! `get_result` hands the finished plane to the caller and drains the slot.

use crate::transform::dequantize_and_idct_block;
use crate::transform::flat_sample;
use crate::transform::in_block;
use std::sync::Arc;
use vstd::arithmetic::div_mod::lemma_div_is_ordered;
use vstd::arithmetic::div_mod::lemma_div_pos_is_pos;
use vstd::arithmetic::div_mod::lemma_fundamental_div_mod;
use vstd::arithmetic::div_mod::lemma_fundamental_div_mod_converse;
use vstd::arithmetic::div_mod::lemma_mod_division_less_than_divisor;
use vstd::prelude::*;
use vstd::slice::slice_subrange;

verus! {

/// Most color components one frame can carry, and so the number of slots.
pub const MAX_COMPONENTS: usize = 4;

/// A size measured in 8x8 blocks.
#[derive(Clone, Copy, PartialEq, Eq, Structural)]
pub struct Dimensions {
    pub width: u16,
    pub height: u16,
}

/// The per-component descriptor the frame header supplies: the plane's size
/// in blocks and how many block lines one MCU row contributes.
#[derive(Clone, Copy, PartialEq, Eq, Structural)]
pub struct Component {
    pub block_size: Dimensions,
    pub vertical_sampling_factor: u8,
}

/// A caller broke the session protocol; none of these is recoverable.
#[derive(Clone, Copy, Debug, PartialEq, Eq, Structural)]
pub enum WorkerError {
    /// `start` hit a slot whose plane was never drained by `get_result`.
    SlotBusy,
    /// `append_row` got a coefficient row whose length is not
    /// `block_count * 64` for the slot's descriptor.
    RowLengthMismatch,
    /// The slot index is outside `[0, MAX_COMPONENTS)`.
    InvalidIndex,
    /// `append_row` hit a slot with no open session: either never started or
    /// already drained by `get_result`.
    SlotNotStarted,
}

/// Everything `start` needs to open one component's session.
pub struct RowData {
    pub index: usize,
    pub component: Component,
    pub quantization_table: Arc<[u16; 64]>,
}

/// Blocks per appended coefficient row: one MCU row holds
/// `vertical_sampling_factor` full lines of `width` blocks.
pub open spec fn block_count(c: Component) -> int {
    c.block_size.width as int * c.vertical_sampling_factor as int
}

/// Bytes per line of the output plane.
pub open spec fn line_stride(c: Component) -> int {
    c.block_size.width as int * 8
}

/// Total bytes of the output plane: 64 samples per block.
pub open spec fn plane_size(c: Component) -> int {
    c.block_size.width as int * c.block_size.height as int * 64
}

/// Coefficients (and plane bytes) consumed by one appended row.
pub open spec fn row_len(c: Component) -> int {
    block_count(c) * 64
}

/// Destination byte offset of sample `(r, c)` of block `i` of one appended
/// row, for a plane `w` blocks wide whose row region starts at `cursor`:
/// block `i` sits `(i / w) * 8` lines down and `(i % w) * 8` samples across.
pub open spec fn block_cell(cursor: int, w: int, i: int, r: int, c: int) -> int {
    cursor + ((i / w) * 8 + r) * (8 * w) + (i % w) * 8 + c
}

/// The ghost state of one slot.
pub ghost struct SlotView {
    /// A session is open: `start` has run and `get_result` has not.
    pub active: bool,
    /// Byte offset where the next appended row lands.
    pub cursor: int,
    /// Rows appended in the open session.
    pub rows: nat,
    /// The plane buffer's bytes.
    pub plane: Seq<u8>,
    /// Descriptor of the session (stale once the slot is drained).
    pub component: Option<Component>,
    /// The shared quantization table's entries (stale once drained).
    pub table: Option<Seq<u16>>,
}

/// What holds of every slot at every step.
pub open spec fn slot_inv(s: SlotView) -> bool {
    &&& s.active ==> {
        &&& s.component is Some
        &&& s.table is Some
        &&& (s.table->0).len() == 64
        &&& s.plane.len() == plane_size(s.component->0)
        &&& s.cursor == s.rows * row_len(s.component->0)
        &&& s.cursor <= s.plane.len()
    }
    &&& !s.active ==> s.plane.len() == 0
}

pub struct Worker {
    offsets: Vec<usize>,
    results: Vec<Vec<u8>>,
    components: Vec<Option<Component>>,
    quantization_tables: Vec<Option<Arc<[u16; 64]>>>,
    active: Vec<bool>,
    rows: Ghost<Seq<nat>>,
}

impl View for Worker {
    type V = Seq<SlotView>;

    closed spec fn view(&self) -> Seq<SlotView> {
        Seq::new(
            MAX_COMPONENTS as nat,
            |i: int|
                SlotView {
                    active: self.active@[i],
                    cursor: self.offsets@[i] as int,
                    rows: self.rows@[i],
                    plane: self.results@[i]@,
                    component: self.components@[i],
                    table: match self.quantization_tables@[i] {
                        Some(t) => Some(t@),
                        None => None,
                    },
                },
        )
    }
}

impl Worker {
    /// The registry's five columns all have one entry per slot.
    pub closed spec fn lens_ok(&self) -> bool {
        &&& self.offsets@.len() == MAX_COMPONENTS
        &&& self.results@.len() == MAX_COMPONENTS
        &&& self.components@.len() == MAX_COMPONENTS
        &&& self.quantization_tables@.len() == MAX_COMPONENTS
        &&& self.active@.len() == MAX_COMPONENTS
        &&& self.rows@.len() == MAX_COMPONENTS
    }

    /// The worker's invariant: every slot is well formed.
    pub open spec fn inv(&self) -> bool {
        &&& self.lens_ok()
        &&& forall|i: int| 0 <= i < MAX_COMPONENTS ==> slot_inv(#[trigger] self@[i])
    }

    /// A fresh worker: every slot idle with an empty plane.
    pub fn new() -> (w: Worker)
        ensures
            w.inv(),
            w@.len() == MAX_COMPONENTS,
            forall|i: int|
                0 <= i < MAX_COMPONENTS ==> {
                    &&& !(#[trigger] w@[i]).active
                    &&& w@[i].plane.len() == 0
                    &&& w@[i].cursor == 0
                    &&& w@[i].component is None
                    &&& w@[i].table is None
                },
    {
        let mut offsets: Vec<usize> = Vec::new();
        let mut results: Vec<Vec<u8>> = Vec::new();
        let mut components: Vec<Option<Component>> = Vec::new();
        let mut quantization_tables: Vec<Option<Arc<[u16; 64]>>> = Vec::new();
        let mut active: Vec<bool> = Vec::new();
        let mut k: usize = 0;
        while k < MAX_COMPONENTS
            invariant
                k <= MAX_COMPONENTS,
                offsets@.len() == k,
                results@.len() == k,
                components@.len() == k,
                quantization_tables@.len() == k,
                active@.len() == k,
                forall|i: int| 0 <= i < k ==> #[trigger] offsets@[i] == 0,
                forall|i: int| 0 <= i < k ==> (#[trigger] results@[i])@.len() == 0,
                forall|i: int| 0 <= i < k ==> #[trigger] components@[i] is None,
                forall|i: int| 0 <= i < k ==> #[trigger] quantization_tables@[i] is None,
                forall|i: int| 0 <= i < k ==> #[trigger] active@[i] == false,
            decreases MAX_COMPONENTS - k,
        {
            offsets.push(0);
            results.push(Vec::new());
            components.push(None);
            quantization_tables.push(None);
            active.push(false);
            k += 1;
        }
        Worker {
            offsets,
            results,
            components,
            quantization_tables,
            active,
            rows: Ghost(Seq::new(MAX_COMPONENTS as nat, |i: int| 0)),
        }
    }

    /// Open a session for slot `data.index`: allocate a zero plane of
    /// `plane_size` bytes, reset the cursor and store descriptor and table.
    /// Fails with `InvalidIndex` on an out-of-range index and with `SlotBusy`
    /// when the slot still holds an undrained plane.
    pub fn start(&mut self, data: RowData) -> (r: Result<(), WorkerError>)
        requires
            old(self).inv(),
            plane_size(data.component) <= usize::MAX as int,
        ensures
            final(self).inv(),
            match r {
                Ok(()) => {
                    let t = final(self)@[data.index as int];
                    &&& data.index < MAX_COMPONENTS
                    &&& old(self)@[data.index as int].plane.len() == 0
                    &&& t.active
                    &&& t.cursor == 0
                    &&& t.rows == 0
                    &&& t.plane.len() == plane_size(data.component)
                    &&& forall|k: int| 0 <= k < t.plane.len() ==> t.plane[k] == 0u8
                    &&& t.component == Some(data.component)
                    &&& t.table == Some(data.quantization_table@)
                    &&& forall|j: int|
                        0 <= j < MAX_COMPONENTS && j != data.index ==> final(self)@[j] == old(
                            self,
                        )@[j]
                },
                Err(WorkerError::InvalidIndex) => {
                    &&& data.index >= MAX_COMPONENTS
                    &&& *final(self) == *old(self)
                },
                Err(WorkerError::SlotBusy) => {
                    &&& data.index < MAX_COMPONENTS
                    &&& old(self)@[data.index as int].plane.len() > 0
                    &&& *final(self) == *old(self)
                },
                Err(WorkerError::RowLengthMismatch) => false,
                Err(WorkerError::SlotNotStarted) => false,
            },
    {
        let index: usize = data.index;
        if index >= MAX_COMPONENTS {
            return Err(WorkerError::InvalidIndex);
        }
        if !self.results[index].is_empty() {
            return Err(WorkerError::SlotBusy);
        }
        let w_u: usize = data.component.block_size.width as usize;
        let h_u: usize = data.component.block_size.height as usize;
        proof {
            lemma_plane_size_parts(w_u as int, h_u as int, usize::MAX as int);
        }
        let size: usize = w_u * h_u * 64;
        self.offsets[index] = 0;
        self.results[index] = alloc_zeroed(size);
        self.components[index] = Some(data.component);
        self.quantization_tables[index] = Some(data.quantization_table);
        self.active[index] = true;
        let ghost tally = self.rows@.update(index as int, 0nat);
        self.rows = Ghost(tally);
        proof {
            assert(self@[index as int].rows == 0);
            assert forall|i: int| 0 <= i < MAX_COMPONENTS implies slot_inv(
                #[trigger] self@[i],
            ) by {
                assert(slot_inv(old(self)@[i]));
            }
        }
        Ok(())
    }

    /// Transform one MCU row of coefficients and write it into the slot's
    /// plane at the cursor, block by block, left to right then line by line;
    /// then advance the cursor by the row's length.  On success every cell of
    /// block `i` holds the flat reconstruction of that block's DC coefficient
    /// and every byte outside the row's region is untouched.
    pub fn append_row(&mut self, index: usize, data: Vec<i16>) -> (r: Result<(), WorkerError>)
        requires
            old(self).inv(),
            (index < MAX_COMPONENTS && old(self)@[index as int].active && data@.len() == row_len(
                old(self)@[index as int].component->0,
            )) ==> old(self)@[index as int].cursor + data@.len() <= old(
                self,
            )@[index as int].plane.len(),
        ensures
            final(self).inv(),
            match r {
                Ok(()) => {
                    let s = old(self)@[index as int];
                    let comp = s.component->0;
                    let t = final(self)@[index as int];
                    &&& index < MAX_COMPONENTS
                    &&& s.active
                    &&& data@.len() == row_len(comp)
                    &&& t.active
                    &&& t.component == s.component
                    &&& t.table == s.table
                    &&& t.rows == s.rows + 1
                    &&& t.cursor == s.cursor + row_len(comp)
                    &&& t.plane.len() == s.plane.len()
                    &&& forall|i: int, rr: int, cc: int|
                        0 <= i < block_count(comp) && 0 <= rr < 8 && 0 <= cc < 8 ==> t.plane[#[trigger] block_cell(
                            s.cursor,
                            comp.block_size.width as int,
                            i,
                            rr,
                            cc,
                        )] as int == flat_sample(data@[i * 64] as int, (s.table->0)[0] as int)
                    &&& forall|k: int|
                        0 <= k < s.plane.len() && !(s.cursor <= k < s.cursor + row_len(comp))
                            ==> t.plane[k] == s.plane[k]
                    &&& forall|j: int|
                        0 <= j < MAX_COMPONENTS && j != index ==> final(self)@[j] == old(self)@[j]
                },
                Err(WorkerError::InvalidIndex) => {
                    &&& index >= MAX_COMPONENTS
                    &&& *final(self) == *old(self)
                },
                Err(WorkerError::SlotNotStarted) => {
                    &&& index < MAX_COMPONENTS
                    &&& !old(self)@[index as int].active
                    &&& *final(self) == *old(self)
                },
                Err(WorkerError::RowLengthMismatch) => {
                    &&& index < MAX_COMPONENTS
                    &&& old(self)@[index as int].active
                    &&& data@.len() != row_len(old(self)@[index as int].component->0)
                    &&& *final(self) == *old(self)
                },
                Err(WorkerError::SlotBusy) => false,
            },
    {
        if index >= MAX_COMPONENTS {
            return Err(WorkerError::InvalidIndex);
        }
        if !self.active[index] {
            return Err(WorkerError::SlotNotStarted);
        }
        let component: Component = self.components[index].unwrap();
        let w_u: usize = component.block_size.width as usize;
        let vsf_u: usize = component.vertical_sampling_factor as usize;
        proof {
            lemma_block_count_small(w_u as int, vsf_u as int);
        }
        let bc: usize = w_u * vsf_u;
        let ls: usize = w_u * 8;
        let expected: usize = bc * 64;
        if data.len() != expected {
            return Err(WorkerError::RowLengthMismatch);
        }
        let offset: usize = self.offsets[index];
        let table: [u16; 64] = match &self.quantization_tables[index] {
            Some(shared) => **shared,
            None => {
                proof {
                    assert(false);
                }
                [0u16; 64]
            },
        };
        let plen: usize = self.results[index].len();
        let ghost plane0 = self.results@[index as int]@;
        let ghost pre = *self;
        let mut i: usize = 0;
        while i < bc
            invariant
                pre.inv(),
                i <= bc,
                index < MAX_COMPONENTS,
                self.offsets == pre.offsets,
                self.components == pre.components,
                self.quantization_tables == pre.quantization_tables,
                self.active == pre.active,
                self.rows == pre.rows,
                self.results@.len() == pre.results@.len(),
                forall|j: int|
                    0 <= j < self.results@.len() && j != index ==> self.results@[j]
                        == pre.results@[j],
                pre@[index as int].active,
                pre@[index as int].component == Some(component),
                w_u == component.block_size.width as int,
                vsf_u == component.vertical_sampling_factor as int,
                bc == w_u * vsf_u,
                ls == w_u * 8,
                expected == bc * 64,
                data@.len() == expected,
                offset == pre@[index as int].cursor,
                plane0 == pre@[index as int].plane,
                offset + expected <= plane0.len(),
                plen == plane0.len(),
                self.results@[index as int]@.len() == plane0.len(),
                table@ == pre@[index as int].table->0,
                forall|i2: int, rr: int, cc: int|
                    0 <= i2 < i && 0 <= rr < 8 && 0 <= cc < 8 ==> self.results@[index as int]@[#[trigger] block_cell(
                        offset as int,
                        w_u as int,
                        i2,
                        rr,
                        cc,
                    )] as int == flat_sample(data@[i2 * 64] as int, table@[0] as int),
                forall|k: int|
                    0 <= k < plane0.len() && !(offset <= k < offset + expected)
                        ==> self.results@[index as int]@[k] == plane0[k],
            decreases bc - i,
        {
            proof {
                if w_u == 0 {
                    assert(bc == 0);
                }
                lemma_block_geometry(w_u as int, vsf_u as int, i as int, offset as int);
                lemma_block_cell_in_row(offset as int, w_u as int, vsf_u as int, i as int, 0, 0);
                lemma_block_cell_in_row(offset as int, w_u as int, vsf_u as int, i as int, 7, 7);
            }
            let x: usize = (i % w_u) * 8;
            let y: usize = (i / w_u) * 8;
            let base: usize = offset + y * ls + x;
            proof {
                assert(base as int == block_cell(offset as int, w_u as int, i as int, 0, 0));
                assert(block_cell(offset as int, w_u as int, i as int, 7, 7) == base + 7 * ls + 7);
            }
            let coeffs: &[i16] = slice_subrange(data.as_slice(), i * 64, i * 64 + 64);
            let ghost before = self.results@[index as int]@;
            dequantize_and_idct_block(coeffs, &table, ls, &mut self.results[index], base);
            proof {
                let stride = ls as int;
                let w = w_u as int;
                let vsf = vsf_u as int;
                let cur = offset as int;
                assert forall|i2: int, rr: int, cc: int|
                    0 <= i2 < i + 1 && 0 <= rr < 8 && 0 <= cc < 8 implies self.results@[index as int]@[#[trigger] block_cell(
                    cur,
                    w,
                    i2,
                    rr,
                    cc,
                )] as int == flat_sample(data@[i2 * 64] as int, table@[0] as int) by {
                    lemma_block_cell_in_row(cur, w, vsf, i2, rr, cc);
                    if i2 == i as int {
                        assert(block_cell(cur, w, i2, rr, cc) == base + rr * stride + cc);
                        assert(coeffs@[0] == data@[i2 * 64]);
                    } else {
                        lemma_other_block_cell_not_in_block(cur, w, i as int, i2, rr, cc);
                        assert(self.results@[index as int]@[block_cell(cur, w, i2, rr, cc)]
                            == before[block_cell(cur, w, i2, rr, cc)]);
                    }
                }
                assert forall|k: int|
                    0 <= k < plane0.len() && !(offset <= k < offset + expected) implies self.results@[index as int]@[k]
                    == plane0[k] by {
                    if in_block(base as int, stride, k) {
                        lemma_in_block_in_row(cur, w, vsf, i as int, k);
                        assert(false);
                    }
                }
            }
            i += 1;
        }
        self.offsets[index] = offset + expected;
        let ghost tally = self.rows@.update(index as int, self.rows@[index as int] + 1);
        self.rows = Ghost(tally);
        proof {
            lemma_next_row_cursor(
                pre@[index as int].rows as int,
                row_len(component),
                offset as int,
            );
            assert forall|j: int| 0 <= j < MAX_COMPONENTS implies slot_inv(
                #[trigger] self@[j],
            ) by {
                assert(slot_inv(pre@[j]));
            }
        }
        Ok(())
    }

    /// Hand the slot's plane to the caller, leaving the slot drained: its
    /// buffer empty and its session closed.  Descriptor and table stay behind
    /// as stale values until the next `start`.
    pub fn get_result(&mut self, index: usize) -> (r: Result<Vec<u8>, WorkerError>)
        requires
            old(self).inv(),
        ensures
            final(self).inv(),
            match r {
                Ok(buf) => {
                    let t = final(self)@[index as int];
                    &&& index < MAX_COMPONENTS
                    &&& buf@ == old(self)@[index as int].plane
                    &&& !t.active
                    &&& t.plane.len() == 0
                    &&& t.component == old(self)@[index as int].component
                    &&& t.table == old(self)@[index as int].table
                    &&& forall|j: int|
                        0 <= j < MAX_COMPONENTS && j != index ==> final(self)@[j] == old(self)@[j]
                },
                Err(WorkerError::InvalidIndex) => {
                    &&& index >= MAX_COMPONENTS
                    &&& *final(self) == *old(self)
                },
                Err(WorkerError::SlotBusy) => false,
                Err(WorkerError::RowLengthMismatch) => false,
                Err(WorkerError::SlotNotStarted) => false,
            },
    {
        if index >= MAX_COMPONENTS {
            return Err(WorkerError::InvalidIndex);
        }
        let mut taken: Vec<u8> = Vec::new();
        core::mem::swap(&mut self.results[index], &mut taken);
        self.active[index] = false;
        proof {
            assert forall|j: int| 0 <= j < MAX_COMPONENTS implies slot_inv(
                #[trigger] self@[j],
            ) by {
                assert(slot_inv(old(self)@[j]));
            }
        }
        Ok(taken)
    }
}

/// Allocate a plane of `n` zero bytes.
fn alloc_zeroed(n: usize) -> (v: Vec<u8>)
    ensures
        v@.len() == n,
        forall|k: int| 0 <= k < n ==> v@[k] == 0u8,
{
    let mut v: Vec<u8> = Vec::new();
    let mut k: usize = 0;
    while k < n
        invariant
            k <= n,
            v@.len() == k,
            forall|j: int| 0 <= j < k ==> v@[j] == 0u8,
        decreases n - k,
    {
        v.push(0u8);
        k += 1;
    }
    v
}

proof fn lemma_plane_size_parts(w: int, h: int, cap: int)
    requires
        0 <= w,
        0 <= h,
        w * h * 64 <= cap,
    ensures
        w * h <= cap,
        (w * h) * 64 == w * h * 64,
{
    assert(w * h <= w * h * 64 && (w * h) * 64 == w * h * 64) by (nonlinear_arith)
        requires
            0 <= w,
            0 <= h,
    ;
}

proof fn lemma_block_count_small(w: int, vsf: int)
    requires
        0 <= w <= 65535,
        0 <= vsf <= 255,
    ensures
        w * vsf <= 16711425,
        0 <= w * vsf,
{
    assert(0 <= w * vsf <= 16711425) by (nonlinear_arith)
        requires
            0 <= w <= 65535,
            0 <= vsf <= 255,
    ;
}

/// Exec and spec geometry agree for block `i`: its base offset, the bound on
/// the intermediate products, and the identity between the base and the
/// block's cell (0, 0).
proof fn lemma_block_geometry(w: int, vsf: int, i: int, cursor: int)
    requires
        1 <= w,
        0 <= i < w * vsf,
    ensures
        0 <= i % w < w,
        0 <= i / w,
        i / w <= vsf - 1,
        forall|r: int, c: int|
            #[trigger] block_cell(cursor, w, i, r, c) == cursor + ((i / w) * 8) * (w * 8) + (i % w)
                * 8 + r * (w * 8) + c,
{
    lemma_fundamental_div_mod(i, w);
    lemma_mod_division_less_than_divisor(i, w);
    lemma_div_pos_is_pos(i, w);
    assert(w * vsf - 1 == (vsf - 1) * w + (w - 1)) by (nonlinear_arith);
    lemma_fundamental_div_mod_converse(w * vsf - 1, w, vsf - 1, w - 1);
    lemma_div_is_ordered(i, w * vsf - 1, w);
    let q = i / w;
    assert forall|r: int, c: int|
        #[trigger] block_cell(cursor, w, i, r, c) == cursor + (q * 8) * (w * 8) + (i % w) * 8 + r
            * (w * 8) + c by {
        assert((q * 8 + r) * (8 * w) == (q * 8) * (w * 8) + r * (w * 8)) by (nonlinear_arith);
    }
}

/// Every cell of every block of one appended row lands inside the row's
/// region of `(w * vsf) * 64` bytes after the cursor.
pub proof fn lemma_block_cell_in_row(cursor: int, w: int, vsf: int, i: int, r: int, c: int)
    requires
        1 <= w,
        1 <= vsf,
        0 <= i < w * vsf,
        0 <= r < 8,
        0 <= c < 8,
    ensures
        cursor <= block_cell(cursor, w, i, r, c),
        block_cell(cursor, w, i, r, c) < cursor + (w * vsf) * 64,
{
    lemma_block_geometry(w, vsf, i, cursor);
    let q = i / w;
    let m = i % w;
    assert(0 <= (q * 8 + r) * (8 * w) + m * 8 + c && (q * 8 + r) * (8 * w) + m * 8 + c < (w * vsf)
        * 64) by (nonlinear_arith)
        requires
            1 <= w,
            1 <= vsf,
            0 <= q <= vsf - 1,
            0 <= m <= w - 1,
            0 <= r < 8,
            0 <= c < 8,
    ;
}

/// Disjoint writes: cells of two distinct blocks of one appended row never
/// share a destination byte.
pub proof fn lemma_block_cells_distinct(
    cursor: int,
    w: int,
    i: int,
    j: int,
    r1: int,
    c1: int,
    r2: int,
    c2: int,
)
    requires
        1 <= w,
        0 <= i,
        0 <= j,
        i != j,
        0 <= r1 < 8,
        0 <= c1 < 8,
        0 <= r2 < 8,
        0 <= c2 < 8,
    ensures
        block_cell(cursor, w, i, r1, c1) != block_cell(cursor, w, j, r2, c2),
{
    let stride = 8 * w;
    lemma_fundamental_div_mod(i, w);
    lemma_mod_division_less_than_divisor(i, w);
    lemma_div_pos_is_pos(i, w);
    lemma_fundamental_div_mod(j, w);
    lemma_mod_division_less_than_divisor(j, w);
    lemma_div_pos_is_pos(j, w);
    let ri = (i / w) * 8 + r1;
    let ci = (i % w) * 8 + c1;
    let rj = (j / w) * 8 + r2;
    let cj = (j % w) * 8 + c2;
    if block_cell(cursor, w, i, r1, c1) == block_cell(cursor, w, j, r2, c2) {
        assert(ri * stride + ci == rj * stride + cj);
        lemma_fundamental_div_mod_converse(ri * stride + ci, stride, ri, ci);
        lemma_fundamental_div_mod_converse(rj * stride + cj, stride, rj, cj);
        assert(ri == rj && ci == cj);
        lemma_fundamental_div_mod_converse(ri, 8, i / w, r1);
        lemma_fundamental_div_mod_converse(rj, 8, j / w, r2);
        lemma_fundamental_div_mod_converse(ci, 8, i % w, c1);
        lemma_fundamental_div_mod_converse(cj, 8, j % w, c2);
        assert(i == w * (i / w) + i % w);
        assert(false);
    }
}

/// The whole destination set of block `i` (as the transform primitive sees
/// it) lies inside the appended row's region.
pub proof fn lemma_in_block_in_row(cursor: int, w: int, vsf: int, i: int, k: int)
    requires
        1 <= w,
        1 <= vsf,
        0 <= i < w * vsf,
        in_block(block_cell(cursor, w, i, 0, 0), 8 * w, k),
    ensures
        cursor <= k < cursor + (w * vsf) * 64,
{
    let stride = 8 * w;
    let base = block_cell(cursor, w, i, 0, 0);
    let d = k - base;
    lemma_fundamental_div_mod(d, stride);
    lemma_mod_division_less_than_divisor(d, stride);
    let qd = d / stride;
    let m = d % stride;
    assert(0 <= qd < 8) by (nonlinear_arith)
        requires
            stride >= 8,
            0 <= d < 8 * stride,
            d == stride * qd + m,
            0 <= m < stride,
    ;
    assert(((i / w) * 8 + qd) * stride == ((i / w) * 8 + 0) * stride + stride * qd)
        by (nonlinear_arith);
    assert(k == block_cell(cursor, w, i, qd, m));
    lemma_block_cell_in_row(cursor, w, vsf, i, qd, m);
}

/// No cell of another block `j` of the row lies in block `i`'s destination
/// set.
pub proof fn lemma_other_block_cell_not_in_block(
    cursor: int,
    w: int,
    i: int,
    j: int,
    r: int,
    c: int,
)
    requires
        1 <= w,
        0 <= i,
        0 <= j,
        i != j,
        0 <= r < 8,
        0 <= c < 8,
    ensures
        !in_block(block_cell(cursor, w, i, 0, 0), 8 * w, block_cell(cursor, w, j, r, c)),
{
    let stride = 8 * w;
    let base = block_cell(cursor, w, i, 0, 0);
    let k = block_cell(cursor, w, j, r, c);
    if in_block(base, stride, k) {
        let d = k - base;
        lemma_fundamental_div_mod(d, stride);
        lemma_mod_division_less_than_divisor(d, stride);
        let qd = d / stride;
        let m = d % stride;
        assert(0 <= qd < 8) by (nonlinear_arith)
            requires
                stride >= 8,
                0 <= d < 8 * stride,
                d == stride * qd + m,
                0 <= m < stride,
        ;
        assert(((i / w) * 8 + qd) * stride == ((i / w) * 8 + 0) * stride + stride * qd)
            by (nonlinear_arith);
        assert(k == block_cell(cursor, w, i, qd, m));
        lemma_block_cells_distinct(cursor, w, i, j, qd, m, r, c);
        assert(false);
    }
}

/// Cursor arithmetic: one more appended row moves a cursor of `k` rows to a
/// cursor of `k + 1` rows.
proof fn lemma_next_row_cursor(k: int, len: int, cursor: int)
    requires
        cursor == k * len,
    ensures
        cursor + len == (k + 1) * len,
{
    assert(k * len + len == (k + 1) * len) by (nonlinear_arith);
}

/// Cursor monotonicity: after `k` appended rows the cursor sits at
/// `k * row_len`, inside the plane as long as `k` MCU rows fit in the
/// plane's height, and a session of exactly `height / vertical_sampling_factor`
/// rows fills the plane exactly.
pub proof fn lemma_cursor_after_k_rows(c: Component, k: nat)
    requires
        c.vertical_sampling_factor >= 1,
        k * c.vertical_sampling_factor as int <= c.block_size.height as int,
    ensures
        k * row_len(c) <= plane_size(c),
        k * c.vertical_sampling_factor as int == c.block_size.height as int ==> k * row_len(c)
            == plane_size(c),
{
    let w = c.block_size.width as int;
    let h = c.block_size.height as int;
    let vsf = c.vertical_sampling_factor as int;
    assert(k * ((w * vsf) * 64) <= w * h * 64 && (k * vsf == h ==> k * ((w * vsf) * 64) == w * h
        * 64)) by (nonlinear_arith)
        requires
            0 <= w,
            1 <= vsf,
            0 <= k,
            k * vsf <= h,
    ;
}

/// One appended row is a whole number of plane lines: its `block_count * 64`
/// bytes are exactly `vertical_sampling_factor * 8` lines of `line_stride`
/// bytes, which is why a cursor advanced in coefficient counts always lands
/// at the start of a line group.
pub proof fn lemma_row_is_whole_lines(c: Component)
    ensures
        row_len(c) == (c.vertical_sampling_factor as int * 8) * line_stride(c),
{
    let w = c.block_size.width as int;
    let vsf = c.vertical_sampling_factor as int;
    assert((w * vsf) * 64 == (vsf * 8) * (w * 8)) by (nonlinear_arith);
}

/// Reset on extraction: a slot with no open session never holds plane bytes,
/// so a second `get_result` without an intervening `start` returns an empty
/// buffer.
pub proof fn lemma_inactive_slot_empty(w: &Worker, i: int)
    requires
        w.inv(),
        0 <= i < MAX_COMPONENTS,
        !w@[i].active,
    ensures
        w@[i].plane.len() == 0,
{
}

} // verus!
