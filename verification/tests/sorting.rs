//! End-to-end tests of the sort engine and its three merge strategies.

use core::cmp::Ordering;

use extsort::DecodeError;
use extsort::Error;
use extsort::ExternalSorter;
use extsort::PushExternalSorter;
use extsort::SegmentReader;
use extsort::Sortable;
use extsort::SortedIterator;
use extsort::order::Comparator;
use extsort::order::NaturalComparator;

fn collect_all<T: Sortable, C: Comparator<T>>(mut it: SortedIterator<T, C>) -> Vec<T> {
    let mut out = Vec::new();
    loop {
        match it.next() {
            Some(Ok(v)) => out.push(v),
            Some(Err(e)) => panic!("unexpected decode error: {:?}", e),
            None => return out,
        }
    }
}

#[test]
fn test_smaller_than_segment() {
    let sorter = ExternalSorter::new();
    let data: Vec<u32> = (0..100u32).collect();
    let data_rev: Vec<u32> = data.iter().rev().cloned().collect();

    let sorted_iter = sorter.sort(data_rev).unwrap();

    // should not have used any segments (all in memory)
    assert_eq!(sorted_iter.disk_segment_count(), 0);
    let sorted_data = collect_all(sorted_iter);

    assert_eq!(data, sorted_data);
}

#[test]
fn test_multiple_segments() {
    let sorter = ExternalSorter::new().with_segment_size(100);
    let data: Vec<u32> = (0..1000u32).collect();

    let data_rev: Vec<u32> = data.iter().rev().cloned().collect();
    let sorted_iter = sorter.sort(data_rev).unwrap();
    assert_eq!(sorted_iter.disk_segment_count(), 10);

    let sorted_data = collect_all(sorted_iter);
    assert_eq!(data, sorted_data);
}

#[test]
fn test_parallel() {
    let sorter = ExternalSorter::new()
        .with_segment_size(100)
        .with_parallel_sort();
    let data: Vec<u32> = (0..1000u32).collect();

    let data_rev: Vec<u32> = data.iter().rev().cloned().collect();
    let sorted_iter = sorter.sort(data_rev).unwrap();
    assert_eq!(sorted_iter.disk_segment_count(), 10);

    let sorted_data = collect_all(sorted_iter);
    assert_eq!(data, sorted_data);
}

#[test]
fn test_pushed() {
    let mut sorter: PushExternalSorter<u32, NaturalComparator> =
        ExternalSorter::new().pushed();
    for item in (0..1000u32).rev() {
        sorter.push(item).unwrap();
    }

    let sorted_iter = sorter.done().unwrap();
    assert_sorted(sorted_iter);
}

struct ErrStruct(u32);

impl Sortable for ErrStruct {
    // ghost items of the trait, never called at run time
    fn enc(self) -> vstd::seq::Seq<u8> {
        unreachable!()
    }

    fn lemma_enc_nonempty(self) {}

    fn lemma_enc_prefix_free(
        _a: Self,
        _b: Self,
        _rest_a: vstd::seq::Seq<u8>,
        _rest_b: vstd::seq::Seq<u8>,
    ) {
    }

    fn encode(&self, out: &mut Vec<u8>) -> Result<(), Error> {
        out.extend_from_slice(&self.0.to_le_bytes());
        Ok(())
    }

    fn decode(r: &mut SegmentReader) -> Result<ErrStruct, DecodeError> {
        if r.pos == r.data.len() {
            return Err(DecodeError::Eof);
        }
        if r.data.len() - r.pos < 4 {
            return Err(DecodeError::Corrupt);
        }
        let mut bytes = [0u8; 4];
        bytes.copy_from_slice(&r.data[r.pos..r.pos + 4]);
        r.pos += 4;
        let value = u32::from_le_bytes(bytes);
        if value == 1 {
            // injected failure: the record decodes as corrupt
            Err(DecodeError::Corrupt)
        } else {
            Ok(ErrStruct(value))
        }
    }
}

struct ErrStructComparator;

impl Comparator<ErrStruct> for ErrStructComparator {
    // ghost items of the trait, never called at run time
    fn le(self, _a: ErrStruct, _b: ErrStruct) -> bool {
        unreachable!()
    }

    fn le_total(self, _a: ErrStruct, _b: ErrStruct) {}

    fn le_trans(self, _a: ErrStruct, _b: ErrStruct, _c: ErrStruct) {}

    fn compare(&self, a: &ErrStruct, b: &ErrStruct) -> Ordering {
        a.0.cmp(&b.0)
    }
}

#[test]
fn test_error_propagation() {
    let mut sorter = ExternalSorter::new()
        .with_segment_size(10)
        .pushed_by(ErrStructComparator);
    for item in 0..100 {
        sorter.push(ErrStruct(item)).unwrap();
    }

    // the first value comes out fine, then the failure on the second
    // encoded record of the first segment surfaces as one error
    let mut sorted_iter = sorter.done().unwrap();
    let first = sorted_iter.next().unwrap();
    assert_eq!(first.unwrap().0, 0);
    let second = sorted_iter.next().unwrap();
    assert!(second.is_err());
    // after the surfaced error the iterator stops producing
    assert!(sorted_iter.next().is_none());
}

fn assert_sorted<C: Comparator<u32>>(mut iter: SortedIterator<u32, C>) {
    let mut last = 0u32;
    let mut n = 0u64;
    let total = iter.sorted_count();
    loop {
        match iter.next() {
            Some(Ok(item)) => {
                assert!(item >= last);
                last = item;
                n += 1;
            },
            Some(Err(e)) => panic!("unexpected decode error: {:?}", e),
            None => break,
        }
    }
    assert_eq!(n, total);
}
