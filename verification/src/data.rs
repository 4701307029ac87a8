//! Datasets stored as one binary file, and the loader that cuts them into
//! batches without copying.
//!
//! File format: `[num_samples: u64 LE][feature_size: u64 LE][f32 LE data...]`,
//! samples stored one after the other, `feature_size` values each.
use vstd::prelude::*;
use std::sync::Arc;
use vstd::bytes::{spec_u64_from_le_bytes, spec_u64_to_le_bytes, u64_from_le_bytes, u64_to_le_bytes};
use crate::device::Device;
use crate::shape::{isize_ints, row_major_strides, DType, Shape};
use crate::tensor::{Tensor, TensorId};

verus! {

/// The length in bytes of the file header.
pub const HEADER_BYTES: usize = 16;

/// The width in bytes of one stored value.
pub const VALUE_BYTES: usize = 4;

/// The header that records `num_samples` and `feature_size`.
pub open spec fn header_bytes(num_samples: usize, feature_size: usize) -> Seq<u8> {
    spec_u64_to_le_bytes(num_samples as u64) + spec_u64_to_le_bytes(feature_size as u64)
}

/// The two counts a header records, read as little-endian `u64`s.
pub open spec fn header_counts(header: Seq<u8>) -> (usize, usize) {
    (
        spec_u64_from_le_bytes(header.subrange(0, 8)) as usize,
        spec_u64_from_le_bytes(header.subrange(8, 16)) as usize,
    )
}

/// The header of a file holding `num_samples` samples of `feature_size` values.
pub fn encode_header(num_samples: usize, feature_size: usize) -> (header: Vec<u8>)
    ensures
        header@ == header_bytes(num_samples, feature_size),
{
    let mut header = u64_to_le_bytes(num_samples as u64);
    let mut rest = u64_to_le_bytes(feature_size as u64);
    header.append(&mut rest);
    header
}

fn copy_range(bytes: &[u8], start: usize, end: usize) -> (out: Vec<u8>)
    requires
        start <= end <= bytes@.len(),
    ensures
        out@ == bytes@.subrange(start as int, end as int),
{
    let mut out: Vec<u8> = Vec::new();
    let mut i: usize = start;
    while i < end
        invariant
            start <= i <= end <= bytes@.len(),
            out@ == bytes@.subrange(start as int, i as int),
        decreases end - i,
    {
        out.push(bytes[i]);
        i = i + 1;
        assert(out@ =~= bytes@.subrange(start as int, i as int));
    }
    out
}

/// The counts recorded by the first sixteen bytes of a dataset file.
pub fn decode_header(bytes: &[u8]) -> (counts: (usize, usize))
    requires
        bytes@.len() >= HEADER_BYTES,
    ensures
        counts == header_counts(bytes@),
{
    let first = copy_range(bytes, 0, 8);
    let second = copy_range(bytes, 8, 16);
    let num_samples = u64_from_le_bytes(first.as_slice()) as usize;
    let feature_size = u64_from_le_bytes(second.as_slice()) as usize;
    (num_samples, feature_size)
}

/// Reading back a header gives the counts it was written with.
pub proof fn lemma_header_round_trip(num_samples: usize, feature_size: usize)
    ensures
        header_bytes(num_samples, feature_size).len() == HEADER_BYTES,
        header_counts(header_bytes(num_samples, feature_size)) == (num_samples, feature_size),
{
    vstd::bytes::lemma_auto_spec_u64_to_from_le_bytes();
    let a = spec_u64_to_le_bytes(num_samples as u64);
    let b = spec_u64_to_le_bytes(feature_size as u64);
    let h = a + b;
    assert(h.subrange(0, 8) =~= a);
    assert(h.subrange(8, 16) =~= b);
}

/// A dataset whose file is mapped into memory as storage `S`.
pub struct MmapDataset<S> {
    pub mmap: Arc<S>,
    pub num_samples: usize,
    pub feature_size: usize,
}

impl<S> MmapDataset<S> {
    /// The byte offset of sample `start` fits in a `usize`, and a sample's
    /// stride fits in an `isize`.
    pub open spec fn addressable_at(&self, start: int) -> bool {
        &&& HEADER_BYTES + start * self.feature_size * VALUE_BYTES <= usize::MAX
        &&& self.feature_size <= isize::MAX
    }

    /// A dataset over the mapped file `mmap`, whose leading bytes are `header`.
    pub fn open(mmap: Arc<S>, header: &[u8]) -> (d: Self)
        requires
            header@.len() >= HEADER_BYTES,
        ensures
            (d.num_samples, d.feature_size) == header_counts(header@),
            d.mmap == mmap,
    {
        let (num_samples, feature_size) = decode_header(header);
        MmapDataset { mmap, num_samples, feature_size }
    }

    /// Whether `addressable_at(start)` holds.
    pub fn is_addressable_at(&self, start: usize) -> (b: bool)
        ensures
            b == self.addressable_at(start as int),
    {
        if self.feature_size > isize::MAX as usize {
            return false;
        }
        match start.checked_mul(self.feature_size) {
            None => {
                proof {
                    assert(start * self.feature_size * VALUE_BYTES >= start * self.feature_size) by (
                    nonlinear_arith)
                        requires
                            start * self.feature_size >= 0,
                    ;
                }
                false
            },
            Some(values) => match values.checked_mul(VALUE_BYTES) {
                None => false,
                Some(bytes) => bytes.checked_add(HEADER_BYTES).is_some(),
            },
        }
    }

    /// The byte offset at which sample `start` begins.
    pub open spec fn sample_offset(&self, start: int) -> int {
        HEADER_BYTES + start * self.feature_size * VALUE_BYTES
    }

    /// A tensor viewing samples `start .. start + batch_size` in place, as a
    /// `[batch_size, feature_size]` matrix of `f32` on the CPU.
    pub fn get_batch<O: ?Sized>(&self, id: TensorId, start: usize, batch_size: usize) -> (t: Tensor<
        S,
        O,
    >)
        requires
            start + batch_size <= self.num_samples,
            self.addressable_at(start as int),
        ensures
            t.id == id,
            t.dtype == DType::F32,
            t.shape@ == seq![batch_size, self.feature_size],
            t.is_contiguous(),
            t.storage == self.mmap,
            t.byte_offset == self.sample_offset(start as int),
            !t.requires_grad,
            t.grad is None,
            t.node is None,
            t.device is Cpu,
    {
        proof {
            assert(start * self.feature_size <= start * self.feature_size * VALUE_BYTES) by (
            nonlinear_arith)
                requires
                    start * self.feature_size >= 0,
            ;
        }
        let data_start_byte = HEADER_BYTES + start * self.feature_size * VALUE_BYTES;
        let mut dims: Vec<usize> = Vec::new();
        dims.push(batch_size);
        dims.push(self.feature_size);
        let shape = Shape::new(dims);
        proof {
            let d = shape@;
            assert(d.subrange(2, 2) =~= Seq::<usize>::empty());
            assert(d.subrange(1, 2) =~= seq![self.feature_size]);
            crate::shape::lemma_size_single(self.feature_size);
        }
        Tensor {
            id,
            dtype: DType::F32,
            strides: shape.contiguous_strides(),
            shape,
            storage: self.mmap.clone(),
            byte_offset: data_start_byte,
            requires_grad: false,
            grad: None,
            node: None,
            device: Device::Cpu,
        }
    }
}

/// The batches, as `(first sample, number of samples)`, that a loader at
/// sample `cur` still yields, `b` samples at a time, from `n` samples.
pub open spec fn batches(cur: nat, b: nat, n: nat) -> Seq<(nat, nat)>
    decreases n - cur,
{
    if cur >= n || b == 0 {
        Seq::empty()
    } else {
        let size = if b <= n - cur {
            b
        } else {
            (n - cur) as nat
        };
        seq![(cur, size)] + batches(cur + size, b, n)
    }
}

/// Batching tiles the samples: the batches start at the loader's position,
/// each starts where the previous one ended, the last one ends at the last
/// sample, and every batch but the last is full.
pub proof fn lemma_batches_tile(cur: nat, b: nat, n: nat)
    requires
        b > 0,
        cur < n,
    ensures
        ({
            let s = batches(cur, b, n);
            &&& s.len() > 0
            &&& s[0].0 == cur
            &&& forall|i: int| 0 <= i < s.len() ==> 0 < (#[trigger] s[i]).1 <= b
            &&& forall|i: int| 0 <= i < s.len() - 1 ==> #[trigger] s[i + 1].0 == s[i].0 + s[i].1
            &&& forall|i: int| 0 <= i < s.len() - 1 ==> (#[trigger] s[i]).1 == b
            &&& s.last().0 + s.last().1 == n
        }),
    decreases n - cur,
{
    let size = if b <= n - cur {
        b
    } else {
        (n - cur) as nat
    };
    let s = batches(cur, b, n);
    let rest = batches(cur + size, b, n);
    assert(s == seq![(cur, size)] + rest);
    if cur + size < n {
        lemma_batches_tile(cur + size, b, n);
        assert forall|i: int| 0 <= i < s.len() - 1 implies #[trigger] s[i + 1].0 == s[i].0
            + s[i].1 by {
            assert(s[i + 1] == rest[i]);
            if i > 0 {
                let j = i - 1;
                assert(s[i] == rest[j]);
                assert(rest[j + 1].0 == rest[j].0 + rest[j].1);
            }
        }
        assert forall|i: int| 0 <= i < s.len() implies 0 < (#[trigger] s[i]).1 <= b by {
            if i > 0 {
                assert(s[i] == rest[i - 1]);
            }
        }
        assert forall|i: int| 0 <= i < s.len() - 1 implies (#[trigger] s[i]).1 == b by {
            if i > 0 {
                assert(s[i] == rest[i - 1]);
            }
        }
        assert(s.last() == rest.last());
    } else {
        assert(rest =~= Seq::<(nat, nat)>::empty());
        assert(s =~= seq![(cur, size)]);
    }
}

/// What one call of `next` does, in samples: at position `cur` of `n`
/// samples, with batches of `b`, it yields the rows `(start, count)` and moves
/// to `after`; at the end it yields nothing and stays.
pub open spec fn next_step(cur: nat, b: nat, n: nat, yielded: Option<(nat, nat)>, after: nat) -> bool {
    if cur >= n {
        yielded is None && after == cur
    } else {
        let size = if b <= n - cur {
            b
        } else {
            (n - cur) as nat
        };
        yielded == Some((cur, size)) && after == cur + size
    }
}

/// Successive calls of a fresh loader (`b > 0`) yield exactly the batches of
/// the dataset, in order, then nothing: call `j` yields batch `j` of
/// `batches(0, b, n)` while there is one, and `None` after the last.
pub proof fn lemma_successive_calls(b: nat, n: nat, pos: Seq<nat>, yielded: Seq<Option<(nat, nat)>>)
    requires
        b > 0,
        pos.len() == yielded.len() + 1,
        pos[0] == 0,
        forall|j: int| 0 <= j < yielded.len() ==> next_step(pos[j], b, n, #[trigger] yielded[j], pos[j + 1]),
    ensures
        forall|j: int|
            0 <= j < yielded.len() ==> #[trigger] yielded[j] == if j < batches(0, b, n).len() {
                Some(batches(0, b, n)[j])
            } else {
                None::<(nat, nat)>
            },
{
    let all = batches(0, b, n);
    assert forall|j: int| 0 <= j < yielded.len() implies #[trigger] yielded[j] == if j < all.len() {
        Some(all[j])
    } else {
        None::<(nat, nat)>
    } by {
        lemma_remaining_after_calls(b, n, pos, yielded, j);
        let rest = batches(pos[j], b, n);
        if pos[j] < n {
            assert(rest.len() > 0);
            assert(rest[0] == all[j]);
        }
    }
}

/// After `j` calls, the batches still to come are those of the dataset from
/// the `j`-th on (none once `j` passes the last).
proof fn lemma_remaining_after_calls(
    b: nat,
    n: nat,
    pos: Seq<nat>,
    yielded: Seq<Option<(nat, nat)>>,
    j: int,
)
    requires
        b > 0,
        pos.len() == yielded.len() + 1,
        pos[0] == 0,
        forall|k: int| 0 <= k < yielded.len() ==> next_step(pos[k], b, n, #[trigger] yielded[k], pos[k + 1]),
        0 <= j < pos.len(),
    ensures
        j <= batches(0, b, n).len() ==> batches(pos[j], b, n) == batches(0, b, n).skip(j),
        j >= batches(0, b, n).len() ==> pos[j] >= n,
    decreases j,
{
    let all = batches(0, b, n);
    if j == 0 {
        assert(all.skip(0) =~= all);
        if all.len() == 0 {
            assert(pos[0] >= n);
        }
    } else {
        let i = j - 1;
        lemma_remaining_after_calls(b, n, pos, yielded, i);
        assert(next_step(pos[i], b, n, yielded[i], pos[i + 1]));
        if pos[i] < n {
            let size = if b <= n - pos[i] { b } else { (n - pos[i]) as nat };
            let rest = batches(pos[i] + size, b, n);
            assert(batches(pos[i], b, n) == seq![(pos[i], size)] + rest);
            if i < all.len() {
                assert(all.skip(i) == seq![(pos[i], size)] + rest);
                assert(all.skip(j) =~= all.skip(i).drop_first());
                assert((seq![(pos[i], size)] + rest).drop_first() =~= rest);
                if j >= all.len() {
                    assert(rest.len() == 0);
                    assert(pos[j] >= n);
                }
            }
        }
    }
}

/// A loader yields `ceil((n - cur) / b)` batches from sample `cur` on.
pub proof fn lemma_batches_count(cur: nat, b: nat, n: nat)
    requires
        b > 0,
    ensures
        batches(cur, b, n).len() == if cur >= n {
            0
        } else {
            ((n - cur + b - 1) / b as int) as nat
        },
    decreases n - cur,
{
    if cur < n {
        let x = (n - cur) as int;
        let bi = b as int;
        if b <= n - cur {
            lemma_batches_count(cur + b, b, n);
            assert((x + bi - 1) / bi == (x - bi + bi - 1) / bi + 1) by {
                vstd::arithmetic::div_mod::lemma_div_plus_one(x - 1, bi);
            }
            if cur + b >= n {
                assert((x - bi + bi - 1) / bi == 0) by {
                    vstd::arithmetic::div_mod::lemma_basic_div(x - 1, bi);
                }
            }
        } else {
            assert((x + bi - 1) / bi == 1) by {
                vstd::arithmetic::div_mod::lemma_div_plus_one(x - 1, bi);
                vstd::arithmetic::div_mod::lemma_basic_div(x - 1, bi);
            }
            assert(batches((cur + (n - cur)) as nat, b, n).len() == 0);
        }
    }
}

/// Yields the samples of a dataset in batches of `batch_size`, each a view of
/// the mapped file, the last one possibly smaller.
pub struct DataLoader<'a, S> {
    dataset: &'a MmapDataset<S>,
    batch_size: usize,
    current_idx: usize,
}

impl<'a, S> DataLoader<'a, S> {
    pub closed spec fn spec_dataset(&self) -> &'a MmapDataset<S> {
        self.dataset
    }

    pub closed spec fn spec_batch_size(&self) -> usize {
        self.batch_size
    }

    /// The first sample not yet yielded.
    pub closed spec fn position(&self) -> usize {
        self.current_idx
    }

    /// The first sample not yet yielded.
    pub fn current_position(&self) -> (p: usize)
        ensures
            p == self.position(),
    {
        self.current_idx
    }

    pub fn new(dataset: &'a MmapDataset<S>, batch_size: usize) -> (l: Self)
        ensures
            l.spec_dataset() == dataset,
            l.spec_batch_size() == batch_size,
            l.position() == 0,
    {
        DataLoader { dataset, batch_size, current_idx: 0 }
    }

    /// The next batch: the samples from the current position, at most
    /// `batch_size` of them; `None` once every sample has been yielded.
    pub fn next<O: ?Sized>(&mut self, id: TensorId) -> (batch: Option<Tensor<S, O>>)
        requires
            old(self).position() < old(self).spec_dataset().num_samples ==> old(
                self,
            ).spec_dataset().addressable_at(old(self).position() as int),
        ensures
            final(self).spec_dataset() == old(self).spec_dataset(),
            final(self).spec_batch_size() == old(self).spec_batch_size(),
            ({
                let n = old(self).spec_dataset().num_samples;
                let cur = old(self).position();
                let b = old(self).spec_batch_size();
                let size = if b <= n - cur {
                    b
                } else {
                    (n - cur) as usize
                };
                &&& next_step(
                    cur as nat,
                    b as nat,
                    n as nat,
                    if batch is Some {
                        Some((cur as nat, batch->0.shape@[0] as nat))
                    } else {
                        None
                    },
                    final(self).position() as nat,
                )
                &&& if cur >= n {
                    &&& batch is None
                    &&& final(self).position() == cur
                    &&& batches(cur as nat, b as nat, n as nat).len() == 0
                } else {
                    &&& batch is Some
                    &&& batch->0.id == id
                    &&& batch->0.shape@ == seq![size, old(self).spec_dataset().feature_size]
                    &&& batch->0.byte_offset == old(self).spec_dataset().sample_offset(cur as int)
                    &&& batch->0.storage == old(self).spec_dataset().mmap
                    &&& batch->0.dtype == DType::F32
                    &&& batch->0.is_contiguous()
                    &&& batch->0.device is Cpu
                    &&& !batch->0.requires_grad
                    &&& batch->0.node is None
                    &&& final(self).position() == cur + size
                    &&& b > 0 ==> batches(cur as nat, b as nat, n as nat)[0] == (cur as nat, size as nat)
                    &&& b > 0 ==> batches(final(self).position() as nat, b as nat, n as nat)
                        == batches(cur as nat, b as nat, n as nat).drop_first()
                }
            }),
    {
        if self.current_idx >= self.dataset.num_samples {
            return None;
        }
        let remaining = self.dataset.num_samples - self.current_idx;
        let current_batch_size = if self.batch_size <= remaining {
            self.batch_size
        } else {
            remaining
        };
        let batch = self.dataset.get_batch(id, self.current_idx, current_batch_size);
        proof {
            let (cur, b, n) = (
                self.current_idx as nat,
                self.batch_size as nat,
                self.dataset.num_samples as nat,
            );
            if b > 0 {
                let first = seq![(cur, current_batch_size as nat)];
                let rest = batches((cur + current_batch_size) as nat, b, n);
                assert(batches(cur, b, n) == first + rest);
                assert((first + rest).drop_first() =~= rest);
            }
        }
        self.current_idx = self.current_idx + current_batch_size;
        Some(batch)
    }
}

} // verus!
