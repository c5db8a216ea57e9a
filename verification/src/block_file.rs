//! A random-access container of fixed-capacity, variable-length blocks.
//!
//! The container is modelled as its byte image. Image layout, integers
//! little-endian: an 8-byte header `(max_span_size, n)`, then one span per
//! slot: a u32 length, the block's bytes, and zero padding up to
//! `max_span_size`. `n` is the largest slot index ever written. Loading the
//! image from a file and storing it back is the embedder's business.

use vstd::prelude::*;
use vstd::bytes::{spec_u32_to_le_bytes, spec_u32_from_le_bytes,
    lemma_auto_spec_u32_to_from_le_bytes};
use vstd::pervasive::VecAdditionalExecFns;
use crate::codec::{push_bytes, push_u32_le, read_u32_le, copy_range};
use crate::CoreError;

verus! {

/// The byte sequences a run of byte vectors holds.
pub open spec fn slot_views(v: Seq<Vec<u8>>) -> Seq<Seq<u8>> {
    Seq::new(v.len(), |i: int| v[i]@)
}

/// A block container: up to `max_span_size` bytes per slot. Unwritten slots
/// below the highest written index read as empty.
#[derive(Debug, PartialEq)]
pub struct BlockFile {
    max_span_size: u32,
    n: u32,
    slots: Vec<Vec<u8>>,
}

/// Mathematical view of a [`BlockFile`]: the slot capacity and the slots up
/// to the highest written index.
#[verifier::ext_equal]
pub struct BlockFileV {
    pub max_span_size: u32,
    pub slots: Seq<Seq<u8>>,
}

impl View for BlockFile {
    type V = BlockFileV;

    closed spec fn view(&self) -> BlockFileV {
        BlockFileV { max_span_size: self.max_span_size, slots: slot_views(self.slots@) }
    }
}

impl BlockFileV {
    /// Every slot fits the span, and the slot count fits the header.
    pub open spec fn wf(self) -> bool {
        &&& forall|i: int| 0 <= i < self.slots.len() ==> (#[trigger] self.slots[i]).len()
            <= self.max_span_size
        &&& self.slots.len() <= 0x1_0000_0000
    }

    /// The header's `n` field: the largest written index.
    pub open spec fn n_field(self) -> nat {
        if self.slots.len() == 0 {
            0
        } else {
            (self.slots.len() - 1) as nat
        }
    }

    /// What the slots become when `data` is written at `nth`: slots grow as
    /// needed, skipped slots stay empty.
    pub open spec fn write_slot(self, nth: int, data: Seq<u8>) -> Seq<Seq<u8>> {
        if nth < self.slots.len() {
            self.slots.update(nth, data)
        } else {
            self.slots + Seq::new((nth - self.slots.len()) as nat, |j: int| Seq::<u8>::empty())
                .push(data)
        }
    }
}

/// The image of one slot: its length, its bytes, and zero padding up to the
/// span size.
pub open spec fn spec_slot_image(slot: Seq<u8>, max_span_size: u32) -> Seq<u8> {
    spec_u32_to_le_bytes(slot.len() as u32) + slot + Seq::new(
        (max_span_size - slot.len()) as nat,
        |j: int| 0u8,
    )
}

/// The concatenated images of a run of slots.
pub open spec fn spec_slots_image(slots: Seq<Seq<u8>>, max_span_size: u32) -> Seq<u8>
    decreases slots.len(),
{
    if slots.len() == 0 {
        Seq::empty()
    } else {
        spec_slots_image(slots.drop_last(), max_span_size) + spec_slot_image(
            slots.last(),
            max_span_size,
        )
    }
}

/// The image of a whole block file.
pub open spec fn spec_image(v: BlockFileV) -> Seq<u8> {
    spec_u32_to_le_bytes(v.max_span_size) + spec_u32_to_le_bytes(v.n_field() as u32)
        + spec_slots_image(v.slots, v.max_span_size)
}

/// Stride of one slot in the image.
pub open spec fn spec_stride(max_span_size: u32) -> int {
    4 + max_span_size
}

/// Each well-formed slot's image takes one stride.
pub proof fn lemma_slots_image_len(slots: Seq<Seq<u8>>, max_span_size: u32)
    requires
        forall|i: int| 0 <= i < slots.len() ==> (#[trigger] slots[i]).len() <= max_span_size,
    ensures
        spec_slots_image(slots, max_span_size).len() == slots.len() * spec_stride(max_span_size),
    decreases slots.len(),
{
    lemma_auto_spec_u32_to_from_le_bytes();
    if slots.len() > 0 {
        lemma_slots_image_len(slots.drop_last(), max_span_size);
        assert((slots.len() - 1) * spec_stride(max_span_size) + spec_stride(max_span_size)
            == slots.len() * spec_stride(max_span_size)) by (nonlinear_arith);
    }
}

/// Appending one slot extends the image by its span.
pub proof fn lemma_slots_image_snoc(slots: Seq<Seq<u8>>, max_span_size: u32, i: int)
    requires
        0 <= i < slots.len(),
    ensures
        spec_slots_image(slots.subrange(0, i + 1), max_span_size) == spec_slots_image(
            slots.subrange(0, i),
            max_span_size,
        ) + spec_slot_image(slots[i], max_span_size),
{
    let pre = slots.subrange(0, i + 1);
    assert(pre.drop_last() =~= slots.subrange(0, i));
    assert(pre.last() == slots[i]);
}

/// Each slot's image sits at its stride in the concatenation.
pub proof fn lemma_slots_image_index(slots: Seq<Seq<u8>>, max_span_size: u32, j: int)
    requires
        forall|k: int| 0 <= k < slots.len() ==> (#[trigger] slots[k]).len() <= max_span_size,
        0 <= j < slots.len(),
    ensures
        spec_slots_image(slots, max_span_size).subrange(
            j * spec_stride(max_span_size),
            (j + 1) * spec_stride(max_span_size),
        ) == spec_slot_image(slots[j], max_span_size),
    decreases slots.len(),
{
    lemma_slots_image_len(slots, max_span_size);
    lemma_slots_image_len(slots.drop_last(), max_span_size);
    lemma_auto_spec_u32_to_from_le_bytes();
    let stride = spec_stride(max_span_size);
    assert((j + 1) * stride == j * stride + stride) by (nonlinear_arith);
    assert(0 <= j * stride && (j + 1) * stride <= slots.len() * stride) by (nonlinear_arith)
        requires
            0 <= j < slots.len(),
            stride >= 4,
    ;
    if j == slots.len() - 1 {
        assert(spec_slots_image(slots, max_span_size).subrange(j * stride, (j + 1) * stride)
            =~= spec_slot_image(slots[j], max_span_size));
    } else {
        lemma_slots_image_index(slots.drop_last(), max_span_size, j);
        assert((j + 1) * stride <= (slots.len() - 1) * stride) by (nonlinear_arith)
            requires
                j < slots.len() - 1,
                stride >= 4,
        ;
        assert(slots.drop_last()[j] == slots[j]);
        let full = spec_slots_image(slots, max_span_size);
        let prefix = spec_slots_image(slots.drop_last(), max_span_size);
        assert(full == prefix + spec_slot_image(slots.last(), max_span_size));
        assert(prefix.len() == (slots.len() - 1) * stride);
        assert forall|q: int| 0 <= q < stride implies #[trigger] full[j * stride + q] == prefix[j
            * stride + q] by {
            assert(j * stride + q < (slots.len() - 1) * stride) by (nonlinear_arith)
                requires
                    0 <= q < stride,
                    0 <= j < slots.len() - 1,
                    stride >= 4,
            ;
        }
        assert(full.subrange(j * stride, (j + 1) * stride) =~= prefix.subrange(
            j * stride,
            (j + 1) * stride,
        ));
    }
}

/// The header region of a well-formed file's image: its length, span size
/// and slot count are what the fields say.
pub proof fn lemma_image_header(v: BlockFileV)
    requires
        v.wf(),
    ensures
        spec_image(v).len() == 8 + v.slots.len() * spec_stride(v.max_span_size),
        spec_u32_from_le_bytes(spec_image(v).subrange(0, 4)) == v.max_span_size,
        spec_u32_from_le_bytes(spec_image(v).subrange(4, 8)) == v.n_field(),
{
    lemma_auto_spec_u32_to_from_le_bytes();
    lemma_slots_image_len(v.slots, v.max_span_size);
    assert(spec_image(v).subrange(0, 4) =~= spec_u32_to_le_bytes(v.max_span_size));
    assert(spec_image(v).subrange(4, 8) =~= spec_u32_to_le_bytes(v.n_field() as u32));
}

/// One slot's region of a well-formed file's image: the length prefix holds
/// the slot's length, and the padding is zeros.
pub proof fn lemma_image_slot_facts(v: BlockFileV, j: int)
    requires
        v.wf(),
        0 <= j < v.slots.len(),
    ensures
        ({
            let img = spec_image(v);
            let stride = spec_stride(v.max_span_size);
            &&& spec_u32_from_le_bytes(img.subrange(8 + j * stride, 8 + j * stride + 4))
                == v.slots[j].len()
            &&& forall|p: int|
                8 + j * stride + 4 + v.slots[j].len() <= p < 8 + (j + 1) * stride ==> img[p] == 0
        }),
{
    lemma_auto_spec_u32_to_from_le_bytes();
    lemma_slots_image_len(v.slots, v.max_span_size);
    lemma_slots_image_index(v.slots, v.max_span_size, j);
    let img = spec_image(v);
    let stride = spec_stride(v.max_span_size);
    let sl = spec_slot_image(v.slots[j], v.max_span_size);
    assert((j + 1) * stride == j * stride + stride) by (nonlinear_arith);
    assert(0 <= j * stride && (j + 1) * stride <= v.slots.len() * stride) by (nonlinear_arith)
        requires
            0 <= j < v.slots.len(),
            stride >= 4,
    ;
    assert(img.subrange(8 + j * stride, 8 + (j + 1) * stride) =~= spec_slots_image(
        v.slots,
        v.max_span_size,
    ).subrange(j * stride, (j + 1) * stride));
    assert(img.subrange(8 + j * stride, 8 + j * stride + 4) =~= sl.subrange(0, 4));
    assert(sl.subrange(0, 4) =~= spec_u32_to_le_bytes(v.slots[j].len() as u32));
    assert forall|p: int|
        8 + j * stride + 4 + v.slots[j].len() <= p < 8 + (j + 1) * stride implies img[p] == 0 by {
        assert(img[p] == sl[p - (8 + j * stride)]);
    }
}

impl BlockFile {
    /// A fresh, empty block file with the given slot capacity.
    pub fn new(max_span_size: u32) -> (r: BlockFile)
        ensures
            r@.max_span_size == max_span_size,
            r@.slots == Seq::<Seq<u8>>::empty(),
            r@.wf(),
            r.inv(),
    {
        let r = BlockFile { max_span_size, n: 0, slots: Vec::new() };
        proof {
            assert(r@.slots =~= Seq::<Seq<u8>>::empty());
        }
        r
    }

    /// The slot capacity this file was created with.
    pub fn max_span_size(&self) -> (r: u32)
        ensures
            r == self@.max_span_size,
    {
        self.max_span_size
    }

    /// How many slots the file holds, written or skipped-and-empty.
    pub fn slot_count(&self) -> (r: usize)
        ensures
            r == self@.slots.len(),
    {
        self.slots.len()
    }

    /// The largest slot index ever written (zero when nothing was).
    pub fn n(&self) -> (r: u32)
        requires
            self.inv(),
        ensures
            r == self@.n_field(),
    {
        self.n
    }

    /// The header's `n` matches the slots.
    pub closed spec fn inv(&self) -> bool {
        self.n == self@.n_field()
    }

    /// Write `buffer` to slot `nth`, growing the file as needed.
    #[verifier::loop_isolation(false)]
    pub fn write_nth_block(&mut self, nth: usize, buffer: &[u8])
        requires
            old(self)@.wf(),
            old(self).inv(),
            buffer@.len() <= old(self)@.max_span_size,
            nth <= u32::MAX,
        ensures
            final(self)@.max_span_size == old(self)@.max_span_size,
            final(self)@.slots == old(self)@.write_slot(nth as int, buffer@),
            final(self)@.wf(),
            final(self).inv(),
            final(self)@.n_field() == if nth as nat > old(self)@.n_field() {
                nth as nat
            } else {
                old(self)@.n_field()
            },
    {
        if nth < self.slots.len() {
            self.slots.set(nth, vstd::slice::slice_to_vec(buffer));
            proof {
                assert(self@.slots =~= old(self)@.write_slot(nth as int, buffer@));
            }
        } else {
            while self.slots.len() < nth
                invariant
                    old(self)@.slots.len() <= self.slots@.len() <= nth,
                    self.max_span_size == old(self).max_span_size,
                    self.n == old(self).n,
                    self@.slots == old(self)@.slots + Seq::new(
                        (self.slots@.len() - old(self)@.slots.len()) as nat,
                        |j: int| Seq::<u8>::empty(),
                    ),
                decreases nth - self.slots@.len(),
            {
                let ghost prev = self.slots@;
                let empty_slot: Vec<u8> = Vec::new();
                self.slots.push(empty_slot);
                proof {
                    let rhs = old(self)@.slots + Seq::new(
                        (self.slots@.len() - old(self)@.slots.len()) as nat,
                        |j: int| Seq::<u8>::empty(),
                    );
                    assert forall|k: int| 0 <= k < self@.slots.len() implies #[trigger] self
                        @.slots[k] == rhs[k] by {
                        if k < prev.len() {
                            assert(self.slots@[k] == prev[k]);
                            assert(slot_views(prev)[k] == prev[k]@);
                        }
                    }
                    assert(self@.slots =~= rhs);
                }
            }
            let ghost mid = self.slots@;
            self.slots.push(vstd::slice::slice_to_vec(buffer));
            proof {
                let rhs = old(self)@.write_slot(nth as int, buffer@);
                assert forall|k: int| 0 <= k < self@.slots.len() implies #[trigger] self@.slots[k]
                    == rhs[k] by {
                    if k < mid.len() {
                        assert(self.slots@[k] == mid[k]);
                        assert(slot_views(mid)[k] == mid[k]@);
                    }
                }
                assert(self@.slots =~= rhs);
            }
        }
        if (nth as u32) > self.n {
            self.n = nth as u32;
        }
    }

    /// Read slot `nth`; reading past the end of the file is the caller's
    /// error. An unwritten slot below the end reads as empty.
    pub fn read_nth_block(&self, nth: usize) -> (r: Result<Vec<u8>, CoreError>)
        ensures
            match r {
                Ok(v) => nth < self@.slots.len() && v@ == self@.slots[nth as int],
                Err(e) => nth >= self@.slots.len() && e == CoreError::Invalid,
            },
    {
        if nth >= self.slots.len() {
            return Err(CoreError::Invalid);
        }
        let slot = &self.slots[nth];
        Ok(vstd::slice::slice_to_vec(slot.as_slice()))
    }

    /// The byte image of this file, as it is stored on disk.
    #[verifier::loop_isolation(false)]
    pub fn to_bytes(&self) -> (r: Vec<u8>)
        requires
            self@.wf(),
            self.inv(),
            8 + self@.slots.len() * spec_stride(self@.max_span_size) <= usize::MAX,
        ensures
            r@ == spec_image(self@),
    {
        proof {
            lemma_slots_image_len(self@.slots, self.max_span_size);
            lemma_auto_spec_u32_to_from_le_bytes();
        }
        let mut out: Vec<u8> = Vec::new();
        push_u32_le(&mut out, self.max_span_size);
        push_u32_le(&mut out, self.n);
        let mut i: usize = 0;
        while i < self.slots.len()
            invariant
                i <= self@.slots.len(),
                out@ == spec_u32_to_le_bytes(self@.max_span_size) + spec_u32_to_le_bytes(
                    self@.n_field() as u32,
                ) + spec_slots_image(self@.slots.subrange(0, i as int), self.max_span_size),
                out@.len() == 8 + i * spec_stride(self@.max_span_size),
            decreases self@.slots.len() - i,
        {
            proof {
                lemma_slots_image_snoc(self@.slots, self.max_span_size, i as int);
                lemma_slots_image_len(self@.slots.subrange(0, i + 1), self.max_span_size);
                lemma_slots_image_len(self@.slots.subrange(0, i as int), self.max_span_size);
                assert((i + 1) * spec_stride(self@.max_span_size) == i * spec_stride(
                    self@.max_span_size,
                ) + spec_stride(self@.max_span_size)) by (nonlinear_arith);
                assert((i + 1) * spec_stride(self@.max_span_size) <= self@.slots.len()
                    * spec_stride(self@.max_span_size)) by (nonlinear_arith)
                    requires
                        i < self@.slots.len(),
                        spec_stride(self@.max_span_size) >= 4,
                ;
            }
            let slot = &self.slots[i];
            push_u32_le(&mut out, slot.len() as u32);
            push_bytes(&mut out, slot.as_slice());
            let mut pad: usize = slot.len();
            while pad < self.max_span_size as usize
                invariant
                    self@.slots[i as int].len() <= pad <= self.max_span_size,
                    out@ == spec_u32_to_le_bytes(self@.max_span_size) + spec_u32_to_le_bytes(
                        self@.n_field() as u32,
                    ) + spec_slots_image(self@.slots.subrange(0, i as int), self.max_span_size)
                        + spec_u32_to_le_bytes(self@.slots[i as int].len() as u32) + self@.slots[i
                        as int] + Seq::new(
                        (pad - self@.slots[i as int].len()) as nat,
                        |j: int| 0u8,
                    ),
                decreases self.max_span_size - pad,
            {
                out.push(0u8);
                pad = pad + 1;
                proof {
                    assert(out@ =~= spec_u32_to_le_bytes(self@.max_span_size)
                        + spec_u32_to_le_bytes(self@.n_field() as u32) + spec_slots_image(
                        self@.slots.subrange(0, i as int),
                        self.max_span_size,
                    ) + spec_u32_to_le_bytes(self@.slots[i as int].len() as u32) + self@.slots[i
                        as int] + Seq::new(
                        (pad - self@.slots[i as int].len()) as nat,
                        |j: int| 0u8,
                    ));
                }
            }
            i = i + 1;
            proof {
                assert(out@ =~= spec_u32_to_le_bytes(self@.max_span_size) + spec_u32_to_le_bytes(
                    self@.n_field() as u32,
                ) + spec_slots_image(self@.slots.subrange(0, i as int), self.max_span_size));
            }
        }
        proof {
            assert(self@.slots.subrange(0, self@.slots.len() as int) =~= self@.slots);
        }
        out
    }

    /// Rebuild a block file from its byte image; an image whose length,
    /// header or padding does not match the layout is corrupted.
    #[verifier::loop_isolation(false)]
    pub fn open(image: &[u8]) -> (r: Result<BlockFile, CoreError>)
        ensures
            match r {
                Ok(bf) => {
                    &&& bf@.wf()
                    &&& bf.inv()
                    &&& image@ == spec_image(bf@)
                },
                Err(e) => e == CoreError::Corrupted,
            },
            r is Err ==> forall|v: BlockFileV| v.wf() ==> image@ != spec_image(v),
    {
        proof {
            lemma_auto_spec_u32_to_from_le_bytes();
        }
        let len = image.len();
        if len < 8 {
            proof {
                assert forall|v: BlockFileV| v.wf() implies image@ != spec_image(v) by {
                    if image@ == spec_image(v) {
                        lemma_image_header(v);
                        assert(v.slots.len() * spec_stride(v.max_span_size) >= 0)
                            by (nonlinear_arith)
                            requires
                                spec_stride(v.max_span_size) >= 4,
                        ;
                    }
                }
            }
            return Err(CoreError::Corrupted);
        }
        let max_span_size = read_u32_le(image, 0);
        let n = read_u32_le(image, 4);
        let stride: u64 = 4 + max_span_size as u64;
        let body: u64 = (len - 8) as u64;
        if body % stride != 0 {
            proof {
                assert forall|v: BlockFileV| v.wf() implies image@ != spec_image(v) by {
                    if image@ == spec_image(v) {
                        lemma_image_header(v);
                        assert(v.max_span_size == max_span_size);
                        assert((v.slots.len() * spec_stride(v.max_span_size)) as int % (
                        stride as int) == 0) by (nonlinear_arith)
                            requires
                                stride == spec_stride(v.max_span_size),
                                stride > 0,
                        ;
                    }
                }
            }
            return Err(CoreError::Corrupted);
        }
        let count64 = body / stride;
        if count64 > 0x1_0000_0000u64 {
            proof {
                assert forall|v: BlockFileV| v.wf() implies image@ != spec_image(v) by {
                    if image@ == spec_image(v) {
                        lemma_image_header(v);
                        assert(v.max_span_size == max_span_size);
                        assert((v.slots.len() * spec_stride(v.max_span_size)) as int / (
                        stride as int) == v.slots.len()) by (nonlinear_arith)
                            requires
                                stride == spec_stride(v.max_span_size),
                                stride > 0,
                        ;
                    }
                }
            }
            return Err(CoreError::Corrupted);
        }
        let count = count64 as usize;
        proof {
            assert(count * stride == body) by (nonlinear_arith)
                requires
                    count == body as int / stride as int,
                    body as int % stride as int == 0,
                    stride > 0,
            ;
        }
        if count == 0 {
            if n != 0 {
                proof {
                    assert forall|v: BlockFileV| v.wf() implies image@ != spec_image(v) by {
                        if image@ == spec_image(v) {
                            lemma_image_header(v);
                            assert(v.max_span_size == max_span_size);
                            assert((v.slots.len() * spec_stride(v.max_span_size)) as int / (
                            stride as int) == v.slots.len()) by (nonlinear_arith)
                                requires
                                    stride == spec_stride(v.max_span_size),
                                    stride > 0,
                            ;
                        }
                    }
                }
                return Err(CoreError::Corrupted);
            }
        } else {
            if (n as u64) + 1 != count64 {
                proof {
                    assert forall|v: BlockFileV| v.wf() implies image@ != spec_image(v) by {
                        if image@ == spec_image(v) {
                            lemma_image_header(v);
                            assert(v.max_span_size == max_span_size);
                            assert((v.slots.len() * spec_stride(v.max_span_size)) as int / (
                            stride as int) == v.slots.len()) by (nonlinear_arith)
                                requires
                                    stride == spec_stride(v.max_span_size),
                                    stride > 0,
                            ;
                        }
                    }
                }
                return Err(CoreError::Corrupted);
            }
        }
        let mut slots: Vec<Vec<u8>> = Vec::new();
        let mut i: usize = 0;
        proof {
            assert(slot_views(slots@) =~= Seq::<Seq<u8>>::empty());
        }
        while i < count
            invariant
                i <= count,
                slots@.len() == i,
                forall|k: int| 0 <= k < i ==> (#[trigger] slots@[k]@).len() <= max_span_size,
                spec_slots_image(slot_views(slots@), max_span_size) == image@.subrange(
                    8,
                    8 + i * spec_stride(max_span_size),
                ),
            decreases count - i,
        {
            let ghost prev = slots@;
            proof {
                assert((i + 1) * spec_stride(max_span_size) == i * spec_stride(max_span_size)
                    + spec_stride(max_span_size)) by (nonlinear_arith);
                assert((i + 1) * spec_stride(max_span_size) <= count * spec_stride(max_span_size))
                    by (nonlinear_arith)
                    requires
                        i < count,
                        spec_stride(max_span_size) >= 4,
                ;
            }
            let base = 8 + i * (4 + max_span_size as usize);
            let slot_len = read_u32_le(image, base);
            if slot_len > max_span_size {
                proof {
                    assert forall|v: BlockFileV| v.wf() implies image@ != spec_image(v) by {
                        if image@ == spec_image(v) {
                            lemma_image_header(v);
                            assert(v.max_span_size == max_span_size);
                            assert((v.slots.len() * spec_stride(v.max_span_size)) as int / (
                            stride as int) == v.slots.len()) by (nonlinear_arith)
                                requires
                                    stride == spec_stride(v.max_span_size),
                                    stride > 0,
                            ;
                            lemma_image_slot_facts(v, i as int);
                        }
                    }
                }
                return Err(CoreError::Corrupted);
            }
            let data = copy_range(image, base + 4, base + 4 + slot_len as usize);
            let mut k: usize = base + 4 + slot_len as usize;
            while k < base + 4 + max_span_size as usize
                invariant
                    base + 4 + slot_len <= k <= base + 4 + max_span_size,
                    forall|p: int| base + 4 + slot_len <= p < k ==> image@[p] == 0,
                decreases base + 4 + max_span_size - k,
            {
                if *vstd::slice::slice_index_get(image, k) != 0 {
                    proof {
                        assert forall|v: BlockFileV| v.wf() implies image@ != spec_image(v) by {
                            if image@ == spec_image(v) {
                                lemma_image_header(v);
                                assert(v.max_span_size == max_span_size);
                                assert((v.slots.len() * spec_stride(v.max_span_size)) as int / (
                                stride as int) == v.slots.len()) by (nonlinear_arith)
                                    requires
                                        stride == spec_stride(v.max_span_size),
                                        stride > 0,
                                ;
                                lemma_image_slot_facts(v, i as int);
                                assert(v.slots[i as int].len() == slot_len);
                                assert(image@[k as int] == 0);
                            }
                        }
                    }
                    return Err(CoreError::Corrupted);
                }
                k = k + 1;
            }
            slots.push(data);
            i = i + 1;
            proof {
                let cur = slot_views(slots@);
                assert(cur.drop_last() =~= slot_views(prev));
                assert(cur.last() == data@);
                assert(spec_slot_image(data@, max_span_size) =~= image@.subrange(
                    base as int,
                    base + spec_stride(max_span_size),
                ));
                assert(spec_slots_image(cur, max_span_size) == spec_slots_image(
                    slot_views(prev),
                    max_span_size,
                ) + spec_slot_image(data@, max_span_size));
                assert(spec_slots_image(cur, max_span_size) =~= image@.subrange(
                    8,
                    8 + i as int * spec_stride(max_span_size),
                ));
            }
        }
        let bf = BlockFile { max_span_size, n, slots };
        proof {
            lemma_slots_image_len(bf@.slots, max_span_size);
            assert(image@ =~= spec_image(bf@));
        }
        Ok(bf)
    }
}

/// Two well-formed block files with the same image are the same file.
pub proof fn lemma_block_file_round_trip(a: BlockFileV, b: BlockFileV)
    requires
        a.wf(),
        b.wf(),
        spec_image(a) == spec_image(b),
    ensures
        a == b,
{
    lemma_auto_spec_u32_to_from_le_bytes();
    lemma_slots_image_len(a.slots, a.max_span_size);
    lemma_slots_image_len(b.slots, b.max_span_size);
    assert(spec_image(a).subrange(0, 4) =~= spec_u32_to_le_bytes(a.max_span_size));
    assert(spec_image(b).subrange(0, 4) =~= spec_u32_to_le_bytes(b.max_span_size));
    assert(a.max_span_size == b.max_span_size);
    let stride = spec_stride(a.max_span_size);
    assert(spec_image(a).len() == 8 + a.slots.len() * stride);
    assert(spec_image(b).len() == 8 + b.slots.len() * stride);
    assert(a.slots.len() == b.slots.len()) by (nonlinear_arith)
        requires
            a.slots.len() * stride == b.slots.len() * stride,
            stride >= 4,
    ;
    assert forall|j: int| 0 <= j < a.slots.len() implies a.slots[j] == b.slots[j] by {
        lemma_slots_image_index(a.slots, a.max_span_size, j);
        lemma_slots_image_index(b.slots, b.max_span_size, j);
        let sa = spec_slots_image(a.slots, a.max_span_size);
        let sb = spec_slots_image(b.slots, b.max_span_size);
        let ia = spec_slot_image(a.slots[j], a.max_span_size);
        let ib = spec_slot_image(b.slots[j], b.max_span_size);
        assert((j + 1) * stride == j * stride + stride) by (nonlinear_arith);
        assert(0 <= j * stride && (j + 1) * stride <= a.slots.len() * stride) by (nonlinear_arith)
            requires
                0 <= j < a.slots.len(),
                stride >= 4,
        ;
        assert(spec_image(a).subrange(8 + j * stride, 8 + (j + 1) * stride) =~= sa.subrange(
            j * stride,
            (j + 1) * stride,
        ));
        assert(spec_image(b).subrange(8 + j * stride, 8 + (j + 1) * stride) =~= sb.subrange(
            j * stride,
            (j + 1) * stride,
        ));
        assert(ia == ib);
        assert(ia.subrange(0, 4) =~= spec_u32_to_le_bytes(a.slots[j].len() as u32));
        assert(ib.subrange(0, 4) =~= spec_u32_to_le_bytes(b.slots[j].len() as u32));
        assert(a.slots[j].len() == b.slots[j].len());
        assert(ia.subrange(4, 4 + a.slots[j].len() as int) =~= a.slots[j]);
        assert(ib.subrange(4, 4 + b.slots[j].len() as int) =~= b.slots[j]);
    }
    assert(a.slots =~= b.slots);
    assert(a =~~= b);
}

} // verus!
