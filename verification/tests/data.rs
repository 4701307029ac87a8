use std::sync::Arc;

use axtensor::data::{decode_header, encode_header, DataLoader, MmapDataset};
use axtensor::shape::DType;
use axtensor::tensor::{Tensor, TensorId};

struct NoOp;

#[test]
fn header_is_two_little_endian_u64s() {
    let h = encode_header(3, 258);
    assert_eq!(h, vec![3, 0, 0, 0, 0, 0, 0, 0, 2, 1, 0, 0, 0, 0, 0, 0]);
    assert_eq!(decode_header(&h), (3, 258));
}

#[test]
fn header_round_trips() {
    for (n, f) in [(0usize, 0usize), (1, 1), (1000, 64), (usize::MAX, 7)] {
        let mut file = encode_header(n, f);
        file.extend_from_slice(&[9, 9, 9, 9]);
        assert_eq!(decode_header(&file), (n, f));
    }
}

fn dataset(n: usize, f: usize) -> MmapDataset<Vec<u8>> {
    let header = encode_header(n, f);
    MmapDataset::open(Arc::new(header.clone()), &header)
}

#[test]
fn open_reads_the_counts() {
    let d = dataset(10, 4);
    assert_eq!(d.num_samples, 10);
    assert_eq!(d.feature_size, 4);
    assert!(d.is_addressable_at(9));
    // Only the requested rows need offsets that fit.
    let huge = dataset(usize::MAX, 2);
    assert!(huge.is_addressable_at(1000));
    assert!(!huge.is_addressable_at(usize::MAX / 4));
    let wide = dataset(1, usize::MAX);
    assert!(!wide.is_addressable_at(0));
}

#[test]
fn batch_views_the_file_in_place() {
    let d = dataset(10, 4);
    let t: Tensor<Vec<u8>, NoOp> = d.get_batch(TensorId(5), 3, 2);
    assert_eq!(t.shape.dims(), &[2, 4]);
    assert_eq!(t.strides.steps(), &[4, 1]);
    // 16 header bytes, then 3 samples of 4 f32 values.
    assert_eq!(t.byte_offset, 16 + 3 * 4 * 4);
    assert_eq!(t.dtype, DType::F32);
    assert!(t.device.is_cpu());
    assert!(!t.requires_grad);
    assert!(t.node.is_none());
    assert!(Arc::ptr_eq(&t.storage, &d.mmap));
}

#[test]
fn loader_cuts_batches_with_a_smaller_last_one() {
    let d = dataset(7, 2);
    let mut loader = DataLoader::new(&d, 3);
    let mut sizes = Vec::new();
    let mut offsets = Vec::new();
    let mut id = 0;
    while let Some(b) = loader.next::<NoOp>(TensorId(id)) {
        sizes.push(b.shape.dims()[0]);
        offsets.push(b.byte_offset);
        id += 1;
    }
    assert_eq!(sizes, vec![3, 3, 1]);
    assert_eq!(offsets, vec![16, 16 + 3 * 2 * 4, 16 + 6 * 2 * 4]);
    assert!(loader.next::<NoOp>(TensorId(99)).is_none());
}

#[test]
fn loader_with_exact_batches_and_empty_dataset() {
    let d = dataset(6, 1);
    let mut loader = DataLoader::new(&d, 2);
    let mut count = 0;
    while let Some(b) = loader.next::<NoOp>(TensorId(0)) {
        assert_eq!(b.shape.dims(), &[2, 1]);
        count += 1;
    }
    assert_eq!(count, 3);
    let empty = dataset(0, 3);
    let mut loader = DataLoader::new(&empty, 4);
    assert!(loader.next::<NoOp>(TensorId(0)).is_none());
}

#[test]
fn batches_of_a_huge_dataset_start_at_the_front() {
    let d = dataset(usize::MAX, 2);
    let t: Tensor<Vec<u8>, NoOp> = d.get_batch(TensorId(1), 0, 3);
    assert_eq!(t.byte_offset, 16);
    let mut l = DataLoader::new(&d, 5);
    assert_eq!(l.current_position(), 0);
    let b: Tensor<Vec<u8>, NoOp> = l.next(TensorId(2)).unwrap();
    assert_eq!(b.shape.dims(), &[5, 2]);
    assert_eq!(l.current_position(), 5);
}
