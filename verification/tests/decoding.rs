//! Tests for position decoding: prefix-sum offsets, term-order
//! concatenation, scratch-buffer reuse, and the error conditions.

use highlighter::highlight::{HighlightRangesGenerator, TextRangesGenerator};
use highlighter::positions::{PositionCollector, TermDocPostings, DEFAULT_CAPACITY};
use highlighter::token::Token;
use highlighter::HighlightError;

#[test]
fn prefix_sum_locates_position_block() {
    // Three documents in the block with frequencies 2, 3, 4; the target is
    // the second, so its 3 positions start at block_base + 2.
    let mut data: Vec<u32> = (100..120).collect();
    data[12] = 7;
    data[13] = 8;
    data[14] = 9;
    let term = TermDocPostings {
        doc_found: true,
        doc_index: 1,
        block_base: 10,
        block_freqs: vec![2, 3, 4],
        position_data: data,
    };
    let mut collector = PositionCollector::new();
    assert!(collector.positions(&vec![term]).is_ok());
    assert_eq!(collector.len(), 3);
    assert_eq!(collector.get(0), 7);
    assert_eq!(collector.get(1), 8);
    assert_eq!(collector.get(2), 9);
    assert!(collector.contains(8));
    assert!(!collector.contains(100));
}

#[test]
fn terms_concatenate_in_term_order() {
    // Positions are concatenated per term, not globally sorted.
    let first = TermDocPostings {
        doc_found: true,
        doc_index: 0,
        block_base: 0,
        block_freqs: vec![2],
        position_data: vec![5, 6],
    };
    let second = TermDocPostings {
        doc_found: true,
        doc_index: 0,
        block_base: 0,
        block_freqs: vec![1],
        position_data: vec![1],
    };
    let mut collector = PositionCollector::new();
    assert!(collector.positions(&vec![first, second]).is_ok());
    assert_eq!(collector.len(), 3);
    assert_eq!(collector.get(0), 5);
    assert_eq!(collector.get(1), 6);
    assert_eq!(collector.get(2), 1);
}

#[test]
fn absent_document_contributes_nothing() {
    let absent = TermDocPostings {
        doc_found: false,
        doc_index: 0,
        block_base: 0,
        block_freqs: vec![],
        position_data: vec![],
    };
    let present = TermDocPostings {
        doc_found: true,
        doc_index: 0,
        block_base: 0,
        block_freqs: vec![1],
        position_data: vec![4],
    };
    let mut collector = PositionCollector::new();
    assert!(collector.positions(&vec![absent, present]).is_ok());
    assert_eq!(collector.len(), 1);
    assert_eq!(collector.get(0), 4);
}

#[test]
fn scratch_buffer_overwritten_per_call() {
    let mut collector = PositionCollector::new();
    let first = vec![TermDocPostings {
        doc_found: true,
        doc_index: 0,
        block_base: 0,
        block_freqs: vec![2],
        position_data: vec![5, 6],
    }];
    assert!(collector.positions(&first).is_ok());
    assert_eq!(collector.len(), 2);

    let second = vec![TermDocPostings {
        doc_found: true,
        doc_index: 0,
        block_base: 0,
        block_freqs: vec![1],
        position_data: vec![9],
    }];
    assert!(collector.positions(&second).is_ok());
    assert_eq!(collector.len(), 1);
    assert_eq!(collector.get(0), 9);
    assert!(!collector.contains(5));
}

#[test]
fn capacity_overflow_is_an_error() {
    let mut collector = PositionCollector::with_capacity(2);
    let term = TermDocPostings {
        doc_found: true,
        doc_index: 0,
        block_base: 0,
        block_freqs: vec![3],
        position_data: vec![0, 1, 2],
    };
    let err = collector.positions(&vec![term]).unwrap_err();
    assert_eq!(err, HighlightError::DecodeCapacityExceeded);
}

#[test]
fn capacity_overflow_across_terms() {
    // The second term's positions would push past the capacity even though
    // each term alone fits.
    let mut collector = PositionCollector::with_capacity(2);
    let first = TermDocPostings {
        doc_found: true,
        doc_index: 0,
        block_base: 0,
        block_freqs: vec![2],
        position_data: vec![0, 1],
    };
    let second = TermDocPostings {
        doc_found: true,
        doc_index: 0,
        block_base: 0,
        block_freqs: vec![1],
        position_data: vec![2],
    };
    let err = collector.positions(&vec![first, second]).unwrap_err();
    assert_eq!(err, HighlightError::DecodeCapacityExceeded);
}

#[test]
fn capacity_boundary_fits() {
    let mut collector = PositionCollector::with_capacity(3);
    let term = TermDocPostings {
        doc_found: true,
        doc_index: 0,
        block_base: 0,
        block_freqs: vec![3],
        position_data: vec![0, 1, 2],
    };
    assert!(collector.positions(&vec![term]).is_ok());
    assert_eq!(collector.len(), 3);
}

#[test]
fn default_capacity_overflow_surfaces_through_generators() {
    let mut collector = PositionCollector::new();
    let over = DEFAULT_CAPACITY + 1;
    let term = TermDocPostings {
        doc_found: true,
        doc_index: 0,
        block_base: 0,
        block_freqs: vec![over as u32],
        position_data: (0..over as u32).collect(),
    };
    let terms = vec![term];
    let tokens = vec![Token { position: 0, offset_from: 0, offset_to: 4 }];

    let err = HighlightRangesGenerator::generate(&mut collector, &terms, Some(&tokens), 4, None)
        .unwrap_err();
    assert_eq!(err, HighlightError::DecodeCapacityExceeded);

    let err =
        TextRangesGenerator::generate(&mut collector, &terms, Some(&tokens), 4).unwrap_err();
    assert_eq!(err, HighlightError::DecodeCapacityExceeded);
}

#[test]
fn truncated_position_store_fails() {
    // The document's block claims 2 positions but the stream ends early.
    let term = TermDocPostings {
        doc_found: true,
        doc_index: 0,
        block_base: 0,
        block_freqs: vec![2],
        position_data: vec![3],
    };
    let mut collector = PositionCollector::new();
    let err = collector.positions(&vec![term]).unwrap_err();
    assert_eq!(err, HighlightError::PositionReadFailure);
}

#[test]
fn inconsistent_block_fails() {
    // The document index lies outside the block's frequency array.
    let term = TermDocPostings {
        doc_found: true,
        doc_index: 3,
        block_base: 0,
        block_freqs: vec![1, 1],
        position_data: vec![0, 1],
    };
    let mut collector = PositionCollector::new();
    let err = collector.positions(&vec![term]).unwrap_err();
    assert_eq!(err, HighlightError::PositionReadFailure);
}

#[test]
fn read_failure_surfaces_through_generators() {
    let term = TermDocPostings {
        doc_found: true,
        doc_index: 0,
        block_base: 100,
        block_freqs: vec![1],
        position_data: vec![0],
    };
    let terms = vec![term];
    let tokens = vec![Token { position: 0, offset_from: 0, offset_to: 4 }];
    let mut collector = PositionCollector::new();

    let err = HighlightRangesGenerator::generate(&mut collector, &terms, Some(&tokens), 4, None)
        .unwrap_err();
    assert_eq!(err, HighlightError::PositionReadFailure);

    let err =
        TextRangesGenerator::generate(&mut collector, &terms, Some(&tokens), 4).unwrap_err();
    assert_eq!(err, HighlightError::PositionReadFailure);
}

#[test]
fn read_failure_checked_before_capacity() {
    // The same term is both truncated and too large for the buffer; the
    // read failure wins, in term order.
    let mut collector = PositionCollector::with_capacity(1);
    let term = TermDocPostings {
        doc_found: true,
        doc_index: 0,
        block_base: 0,
        block_freqs: vec![5],
        position_data: vec![0, 1],
    };
    let err = collector.positions(&vec![term]).unwrap_err();
    assert_eq!(err, HighlightError::PositionReadFailure);
}

#[test]
fn whole_text_helper() {
    let ranges = highlighter::highlight::TextRange::whole(7);
    assert_eq!(ranges.len(), 1);
    assert_eq!(ranges[0].bounds(), (false, 0, 7));
}

#[test]
fn zero_frequency_term_contributes_nothing() {
    // A block may record a document with frequency 0: nothing is read.
    let term = TermDocPostings {
        doc_found: true,
        doc_index: 0,
        block_base: 0,
        block_freqs: vec![0],
        position_data: vec![],
    };
    let mut collector = PositionCollector::with_capacity(0);
    assert!(collector.positions(&vec![term]).is_ok());
    assert_eq!(collector.len(), 0);
}

#[test]
fn block_base_past_stream_fails() {
    let term = TermDocPostings {
        doc_found: true,
        doc_index: 0,
        block_base: 10,
        block_freqs: vec![0],
        position_data: vec![],
    };
    let mut collector = PositionCollector::new();
    let err = collector.positions(&vec![term]).unwrap_err();
    assert_eq!(err, HighlightError::PositionReadFailure);
}
