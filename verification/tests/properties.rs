//! Property-level tests: strategy agreement, spill arithmetic, codec round
//! trips and failure injection.

use core::cmp::Ordering;

use extsort::DecodeError;
use extsort::Error;
use extsort::ExternalSorter;
use extsort::SegmentReader;
use extsort::Sortable;
use extsort::SortedIterator;
use extsort::PushExternalSorter;
use extsort::order::Comparator;
use extsort::order::KeyFn;
use extsort::order::NaturalComparator;

fn drain<T: Sortable, C: Comparator<T>>(mut it: SortedIterator<T, C>) -> Vec<T> {
    let mut out = Vec::new();
    loop {
        match it.next() {
            Some(Ok(v)) => out.push(v),
            Some(Err(e)) => panic!("unexpected decode error: {:?}", e),
            None => return out,
        }
    }
}

// Crossing the heap-merge threshold must not change the output: the same
// reversed input sorted with enough segments for the heap-based merge and
// with few enough for the linear scan yields identical sequences.
#[test]
fn test_strategy_agreement_across_threshold() {
    let data: Vec<u32> = (0..1530u32).rev().collect();

    // segment size 50 spills 30 segments: at the default threshold of 20
    // the heap-based merge runs, with several refills per segment
    let heap_iter = ExternalSorter::new()
        .with_segment_size(50)
        .sort(data.clone())
        .unwrap();
    assert!(heap_iter.disk_segment_count() >= 20);
    let heap_out = drain(heap_iter);

    // segment size 200 spills 7 segments: the linear scan runs
    let peek_iter = ExternalSorter::new()
        .with_segment_size(200)
        .sort(data.clone())
        .unwrap();
    assert!(peek_iter.disk_segment_count() < 20);
    let peek_out = drain(peek_iter);

    assert_eq!(heap_out, peek_out);
    let expected: Vec<u32> = (0..1530u32).collect();
    assert_eq!(heap_out, expected);
}

// Parallel sorting must not change the output, only how buffers get sorted.
#[test]
fn test_parallel_agreement() {
    let data: Vec<u32> = (0..777u32).rev().collect();
    let sequential = drain(
        ExternalSorter::new().with_segment_size(30).sort(data.clone()).unwrap(),
    );
    let parallel = drain(
        ExternalSorter::new()
            .with_segment_size(30)
            .with_parallel_sort()
            .sort(data.clone())
            .unwrap(),
    );
    assert_eq!(sequential, parallel);
}

// A spill is triggered once the buffer exceeds the segment size, so 202
// items with segment size 100 make exactly two full segments of 101 and
// leave nothing for a final flush.
#[test]
fn test_segment_count_exact_fill() {
    let sorter = ExternalSorter::new().with_segment_size(100);
    let data: Vec<u32> = (0..202u32).rev().collect();
    let it = sorter.sort(data).unwrap();
    assert_eq!(it.disk_segment_count(), 2);
    assert_eq!(it.sorted_count(), 202);
    let out = drain(it);
    assert_eq!(out, (0..202u32).collect::<Vec<u32>>());
}

// Equal-ranked items are neither lost nor duplicated.
#[test]
fn test_duplicates_preserved() {
    let data: Vec<u32> = vec![5, 3, 5, 1, 3, 3, 9, 0, 5];
    let it = ExternalSorter::new().with_segment_size(2).sort(data).unwrap();
    assert_eq!(it.sorted_count(), 9);
    let out = drain(it);
    assert_eq!(out, vec![0, 1, 3, 3, 3, 5, 5, 5, 9]);
}

// Encoding values and decoding them back in stream order reproduces each
// value unchanged, and the stream ends with a clean end of stream.
#[test]
fn test_codec_round_trip() {
    let values: Vec<u32> = vec![0, 1, 305419896, u32::MAX, 7];
    let mut data: Vec<u8> = Vec::new();
    for v in &values {
        v.encode(&mut data).unwrap();
    }
    assert_eq!(data.len(), 4 * values.len());
    let mut r = SegmentReader { data, pos: 0 };
    let mut back: Vec<u32> = Vec::new();
    loop {
        match u32::decode(&mut r) {
            Ok(v) => back.push(v),
            Err(DecodeError::Eof) => break,
            Err(DecodeError::Corrupt) => panic!("corrupt stream"),
        }
    }
    assert_eq!(values, back);
}

// A truncated record is corruption, not a clean end of stream.
#[test]
fn test_truncated_record_is_corrupt() {
    let mut r = SegmentReader { data: vec![1, 2, 3], pos: 0 };
    assert!(matches!(u32::decode(&mut r), Err(DecodeError::Corrupt)));
}

struct BadEncode(u32);

impl Sortable for BadEncode {
    // ghost items of the trait, never called at run time
    fn enc(self) -> vstd::seq::Seq<u8> {
        unreachable!()
    }

    fn lemma_enc_nonempty(self) {}

    fn lemma_enc_prefix_free(
        _a: Self,
        _b: Self,
        _rest_a: vstd::seq::Seq<u8>,
        _rest_b: vstd::seq::Seq<u8>,
    ) {
    }

    fn encode(&self, _out: &mut Vec<u8>) -> Result<(), Error> {
        Err(Error::Encode)
    }

    fn decode(_r: &mut SegmentReader) -> Result<BadEncode, DecodeError> {
        Err(DecodeError::Corrupt)
    }
}

struct BadEncodeComparator;

impl Comparator<BadEncode> for BadEncodeComparator {
    // ghost items of the trait, never called at run time
    fn le(self, _a: BadEncode, _b: BadEncode) -> bool {
        unreachable!()
    }

    fn le_total(self, _a: BadEncode, _b: BadEncode) {}

    fn le_trans(self, _a: BadEncode, _b: BadEncode, _c: BadEncode) {}

    fn compare(&self, a: &BadEncode, b: &BadEncode) -> Ordering {
        a.0.cmp(&b.0)
    }
}

// An encode failure during the spill aborts the accumulation with an error.
#[test]
fn test_encode_failure_aborts_push() {
    let mut sorter = ExternalSorter::new()
        .with_segment_size(2)
        .pushed_by(BadEncodeComparator);
    sorter.push(BadEncode(3)).unwrap();
    sorter.push(BadEncode(2)).unwrap();
    // the third push overflows the buffer; the spill's encode fails
    let r = sorter.push(BadEncode(1));
    assert!(r.is_err());
}

struct Descending;

impl KeyFn<u32> for Descending {
    type K = u32;

    // ghost item of the trait, never called at run time
    fn key_spec(self, _t: u32) -> u32 {
        unreachable!()
    }

    fn key(&self, t: &u32) -> u32 {
        u32::MAX - *t
    }
}

// Sorting by an extracted key follows the key's order.
#[test]
fn test_sort_by_key_descending() {
    let data: Vec<u32> = vec![3, 9, 1, 7, 7, 0];
    let it = ExternalSorter::new()
        .with_segment_size(2)
        .sort_by_key(data, Descending)
        .unwrap();
    let out = drain(it);
    assert_eq!(out, vec![9, 7, 7, 3, 1, 0]);
}

// Pushing by an extracted key follows the key's order too.
#[test]
fn test_pushed_by_key() {
    let mut sorter = ExternalSorter::new().pushed_by_key(Descending);
    for v in [2u32, 9, 4] {
        sorter.push(v).unwrap();
    }
    let it = sorter.done().unwrap();
    assert_eq!(drain(it), vec![9, 4, 2]);
}

// Batches pushed through `push_iter` accumulate like repeated `push`.
#[test]
fn test_push_iter_batches() {
    let mut sorter: PushExternalSorter<u32, NaturalComparator> =
        ExternalSorter::new().with_segment_size(3).pushed();
    sorter.push_iter((0..10u32).rev().collect()).unwrap();
    sorter.push_iter((10..20u32).rev().collect()).unwrap();
    let it = sorter.done().unwrap();
    assert_eq!(it.sorted_count(), 20);
    assert_eq!(drain(it), (0..20u32).collect::<Vec<u32>>());
}

// Spilled segments can live outside the engine: each finished run is taken
// out right after pushing (the embedding program would store it in the sort
// directory), and the same runs handed back at finalization reproduce the
// full sorted output — here through the heap-based merge.
#[test]
fn test_exported_segments_round_trip() {
    let mut sorter: PushExternalSorter<u32, NaturalComparator> = ExternalSorter::new()
        .with_segment_size(10)
        .pushed();
    let mut stored: Vec<Vec<u8>> = Vec::new();
    for v in (0..300u32).rev() {
        sorter.push(v).unwrap();
        let mut runs = sorter.export_segments();
        stored.append(&mut runs);
    }
    let it = sorter.done_with_segments(stored).unwrap();
    // 27 full runs of 11 plus a final flush of the remaining 3
    assert_eq!(it.disk_segment_count(), 28);
    assert_eq!(drain(it), (0..300u32).collect::<Vec<u32>>());
}

// The configured sort directory does not change what is sorted.
#[test]
fn test_sort_dir_configured() {
    let sorter = ExternalSorter::new().with_sort_dir(String::from("scratch"));
    let it = sorter.sort((0..10u32).rev().collect::<Vec<u32>>()).unwrap();
    assert_eq!(drain(it), (0..10u32).collect::<Vec<u32>>());
}
