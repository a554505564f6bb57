use sparser::bitmap::Bitmap;
use sparser::decompose_ascii_rawfilters::{ascii_rawfilters, decompose};
use sparser::sparser::{
    frame_records, sample_selectivity, search_best, search_data, search_schedules,
    sparser_calibrate, sparser_query, sparser_search, sparser_stats, AcceptAllParser,
    ContainsParser, ErrorParser, Schedule,
};
use sparser::utils::error::SparserError;
use sparser::utils::memory::is_aligned;
use sparser::common::{time_start, time_stop};

fn bitmap_of(bits: &[usize]) -> Bitmap {
    let mut b = Bitmap::new();
    for &i in bits {
        b.set(i);
    }
    b
}

fn fresh_search_data(masks: Vec<Bitmap>, num_records: u64, parse_cost: u64) -> search_data {
    search_data {
        num_records,
        passthrough_masks: masks,
        full_parse_cost: parse_cost,
        best_cost: u128::MAX,
        best_schedule: Vec::new(),
        schedule_len: 0,
        joint: Bitmap::new(),
        skipped: 0,
        processed: 0,
        total_cycles: 0,
    }
}

fn two_filter_table() -> ascii_rawfilters {
    ascii_rawfilters {
        strings: vec![b"AAAA".to_vec(), b"BBBB".to_vec()],
        sources: vec![0, 1],
        region: vec![b"AAAA".to_vec(), b"BBBB".to_vec()],
        num_strings: 2,
    }
}

#[test]
fn test_query_add_truncates() {
    let mut q = sparser_query::new();
    q.add(String::from("ABCDEFGHIJKLMNOPQRST")).unwrap();
    assert_eq!(q.queries.len(), 1);
    assert_eq!(&q.queries[0][..], b"ABCDEFGHIJKLMNOP");
}

#[test]
fn test_query_add_rejects_empty() {
    let mut q = sparser_query::new();
    assert_eq!(q.add(String::new()), Err(SparserError::InputValidation));
    assert_eq!(q.queries.len(), 0);
}

#[test]
fn test_query_add_rejects_overflow() {
    let mut q = sparser_query::new();
    for _ in 0..32 {
        q.add(String::from("word")).unwrap();
    }
    assert_eq!(q.add(String::from("more")), Err(SparserError::InputValidation));
    assert_eq!(q.queries.len(), 32);
}

#[test]
fn test_frame_records_splits_on_delimiter() {
    let input = b"a\nbb\nccc".to_vec();
    let recs = frame_records(&input, b'\n');
    assert_eq!(recs.len(), 2);
    assert_eq!(&recs[0][..], b"a");
    assert_eq!(&recs[1][..], b"bb");
    assert_eq!(frame_records(&b"x\n".to_vec(), b'\n').len(), 1);
    assert_eq!(frame_records(&Vec::new(), b'\n').len(), 0);
}

#[test]
fn test_sampler_selectivity_counts() {
    // Five records, three of which contain "Dona".
    let preds = vec![b"Donald Trump".to_vec()];
    let table = decompose(preds);
    let sample = b"Donald Trump wins\nnothing here\na Donax\nvote Donald\nblank\n".to_vec();
    let mut parser = AcceptAllParser { calls: 0 };
    let out = sample_selectivity(&sample, &table, b'\n', &mut parser).unwrap();
    assert_eq!(out.num_records, 5);
    // Filter 0 is "Dona".
    assert_eq!(&table.region[0][..], b"Dona");
    assert_eq!(out.masks[0].count(), 3);
    assert!(out.masks[0].is_set(0));
    assert!(!out.masks[0].is_set(1));
    assert!(out.masks[0].is_set(2));
    assert!(out.masks[0].is_set(3));
    assert!(!out.masks[0].is_set(4));
}

#[test]
fn test_sampler_no_records() {
    let preds = vec![b"word".to_vec()];
    let table = decompose(preds);
    let sample = b"no delimiter at all".to_vec();
    let mut parser = AcceptAllParser { calls: 0 };
    assert!(matches!(
        sample_selectivity(&sample, &table, b'\n', &mut parser),
        Err(SparserError::InsufficientSamples)
    ));
}

#[test]
fn test_schedule_costs() {
    // Two four-byte filters A and B over four sample records:
    // A matches all four, B matches two.  Full parse costs 1000.
    // Cost of (A) alone: 32 + 1.0 * 1000 = 1032 per record.
    let table = two_filter_table();
    let mut result = vec![0usize, 0, 0, 0];
    let mut sd = fresh_search_data(
        vec![bitmap_of(&[0, 1, 2, 3]), bitmap_of(&[0, 2])],
        4,
        1000,
    );
    search_schedules(&table, &mut sd, 0, 1, &mut result, 1);
    assert_eq!(sd.best_cost, 1032 * 4);
    assert_eq!(sd.best_schedule, vec![0]);

    // Cost of (A, B): 32 + 1.0 * 32 + 0.5 * 1000 = 564 per record.
    let mut sd2 = fresh_search_data(
        vec![bitmap_of(&[0, 1, 2, 3]), bitmap_of(&[0, 2])],
        4,
        1000,
    );
    let mut result2 = vec![0usize, 1, 0, 0];
    search_schedules(&table, &mut sd2, 0, 2, &mut result2, 2);
    assert_eq!(sd2.best_cost, 564 * 4);
    assert_eq!(sd2.best_schedule, vec![0, 1]);

    // (A, B) beats (A).
    assert!(sd2.best_cost < sd.best_cost);
}

#[test]
fn test_schedule_search_finds_minimum() {
    // Same setup; the full search also enumerates (B) alone:
    // 32 + 0.5 * 1000 = 532 per record, the cheapest of the three.
    let table = two_filter_table();
    let mut sd = fresh_search_data(
        vec![bitmap_of(&[0, 1, 2, 3]), bitmap_of(&[0, 2])],
        4,
        1000,
    );
    search_best(&table, &mut sd);
    assert_eq!(sd.best_cost, 532 * 4);
    assert_eq!(sd.best_schedule, vec![1]);
    assert!(sd.processed >= 3);
}

#[test]
fn test_schedule_skips_same_source() {
    // Two filters extracted from one predicate: the pair must be
    // skipped, so only singleton schedules are considered.
    let table = ascii_rawfilters {
        strings: vec![b"AAAAB".to_vec()],
        sources: vec![0, 0],
        region: vec![b"AAAA".to_vec(), b"AAAB".to_vec()],
        num_strings: 2,
    };
    let mut sd = fresh_search_data(
        vec![bitmap_of(&[0, 1]), bitmap_of(&[1])],
        2,
        100,
    );
    search_best(&table, &mut sd);
    assert!(sd.skipped >= 1);
    assert_eq!(sd.schedule_len, 1);
}

#[test]
fn test_calibrate_empty_query() {
    let q = sparser_query::new();
    let sample = b"a\nb\n".to_vec();
    let mut parser = AcceptAllParser { calls: 0 };
    assert!(matches!(
        sparser_calibrate(&sample, &q, b'\n', &mut parser),
        Err(SparserError::InputValidation)
    ));
}

#[test]
fn test_calibrate_unsupported_width() {
    // A three-byte predicate decomposes to a three-byte raw filter,
    // which no kernel width serves.
    let mut q = sparser_query::new();
    q.add(String::from("abc")).unwrap();
    let sample = b"abc here\nnothing\n".to_vec();
    let mut parser = AcceptAllParser { calls: 0 };
    assert!(matches!(
        sparser_calibrate(&sample, &q, b'\n', &mut parser),
        Err(SparserError::KernelUnsupported)
    ));
}

#[test]
fn test_calibrate_insufficient_samples() {
    let mut q = sparser_query::new();
    q.add(String::from("word")).unwrap();
    let sample = b"no delimiter".to_vec();
    let mut parser = AcceptAllParser { calls: 0 };
    assert!(matches!(
        sparser_calibrate(&sample, &q, b'\n', &mut parser),
        Err(SparserError::InsufficientSamples)
    ));
}

#[test]
fn test_calibrate_single_predicate() {
    let mut q = sparser_query::new();
    q.add(String::from("Donald Trump")).unwrap();
    let sample = b"Donald Trump wins\nnothing here\na Donax\nvote Donald\nblank\n".to_vec();
    let mut parser = AcceptAllParser { calls: 0 };
    let (sch, tm) = sparser_calibrate(&sample, &q, b'\n', &mut parser).unwrap();
    // All raw filters share the one source predicate, so the chosen
    // schedule holds exactly one of them.
    assert_eq!(sch.indices.len(), 1);
    assert_eq!(sch.filters.len(), 1);
    assert_eq!(sch.filters[0].len(), 4);
    assert_eq!(sch.num_records, 5);
    assert!(tm.skipped >= 1);
    assert!(tm.processed >= 9);
}

#[test]
fn test_scan_filters_then_callback() {
    // Records that pass the raw filter "ab" go to the callback, which
    // accepts exactly those containing "abc".
    let input = b"xxabcxx\nabzz\nzzz\nabc\nab\nqq\n".to_vec();
    let schedule = Schedule {
        filters: vec![b"ab".to_vec()],
        indices: vec![0],
        best_cost: 0,
        num_records: 1,
        parse_cost: 0,
    };
    let mut parser = ContainsParser { pat: b"abc".to_vec() };
    let (emitted, stats) = sparser_search(&input, &schedule, b'\n', &mut parser).unwrap();
    assert_eq!(stats.records, 6);
    assert_eq!(stats.sparser_passed, 4);
    assert_eq!(stats.total_matches, 4);
    assert_eq!(stats.callback_passed, 2);
    assert_eq!(emitted.len(), 2);
    assert_eq!(&emitted[0][..], b"xxabcxx");
    assert_eq!(&emitted[1][..], b"abc");
    // Filter conservativity and callback authority on the emitted set.
    for r in &emitted {
        assert!(r.windows(2).any(|w| w == b"ab"));
        assert!(r.windows(3).any(|w| w == b"abc"));
    }
    assert_eq!(stats.bytes_seeked_forward, 0);
    assert_eq!(stats.bytes_seeked_backward, 0);
}

#[test]
fn test_scan_counts_parser_errors() {
    let input = b"ab one\nab two\nother\n".to_vec();
    let schedule = Schedule {
        filters: vec![b"ab".to_vec()],
        indices: vec![0],
        best_cost: 0,
        num_records: 1,
        parse_cost: 0,
    };
    let mut parser = ErrorParser {};
    let (emitted, stats) = sparser_search(&input, &schedule, b'\n', &mut parser).unwrap();
    assert_eq!(emitted.len(), 0);
    assert_eq!(stats.records, 3);
    assert_eq!(stats.sparser_passed, 2);
    assert_eq!(stats.callback_passed, 0);
    assert_eq!(stats.parse_errors, 2);
}

#[test]
fn test_scan_unsupported_filter_width() {
    let input = b"hello world\n".to_vec();
    let schedule = Schedule {
        filters: vec![b"world".to_vec()],
        indices: vec![0],
        best_cost: 0,
        num_records: 1,
        parse_cost: 0,
    };
    let mut parser = AcceptAllParser { calls: 0 };
    assert!(matches!(
        sparser_search(&input, &schedule, b'\n', &mut parser),
        Err(SparserError::KernelUnsupported)
    ));
}

#[test]
fn test_calibrate_then_scan_end_to_end() {
    // Calibrate on 100 sample records, scan 10,000.
    let mut lines: Vec<u8> = Vec::new();
    let mut accepted = 0u64;
    for i in 0..10000 {
        if i % 3 == 0 {
            lines.extend_from_slice(b"user alice likes things\n");
            accepted += 1;
        } else {
            lines.extend_from_slice(b"user bob likes things\n");
        }
    }
    let mut sample: Vec<u8> = Vec::new();
    for i in 0..100 {
        if i % 3 == 0 {
            sample.extend_from_slice(b"user alice likes things\n");
        } else {
            sample.extend_from_slice(b"user bob likes things\n");
        }
    }
    let mut q = sparser_query::new();
    q.add(String::from("alice")).unwrap();
    let mut parser = ContainsParser { pat: b"alice".to_vec() };
    let (sch, _tm) = sparser_calibrate(&sample, &q, b'\n', &mut parser).unwrap();
    let mut scan_parser = ContainsParser { pat: b"alice".to_vec() };
    let (emitted, stats) = sparser_search(&lines, &sch, b'\n', &mut scan_parser).unwrap();
    assert_eq!(stats.records, 10000);
    assert!(stats.sparser_passed >= stats.callback_passed);
    assert_eq!(stats.callback_passed, accepted);
    assert_eq!(emitted.len(), accepted as usize);
}

#[test]
fn test_stats_fractions() {
    let stats = sparser_stats {
        records: 10,
        total_matches: 4,
        sparser_passed: 4,
        callback_passed: 3,
        parse_errors: 0,
        bytes_seeked_forward: 0,
        bytes_seeked_backward: 0,
    };
    assert_eq!(stats.fraction_passed_correct_permille(), 750);
    assert_eq!(stats.fraction_passed_incorrect_permille(), 250);
    let empty = sparser_stats {
        records: 0,
        total_matches: 0,
        sparser_passed: 0,
        callback_passed: 0,
        parse_errors: 0,
        bytes_seeked_forward: 0,
        bytes_seeked_backward: 0,
    };
    assert_eq!(empty.fraction_passed_correct_permille(), 0);
    assert_eq!(empty.fraction_passed_incorrect_permille(), 0);
}

#[test]
fn test_is_aligned() {
    assert!(is_aligned(128, 64));
    assert!(!is_aligned(129, 64));
    assert!(is_aligned(0, 1));
    assert!(is_aligned(7, 1));
    assert!(!is_aligned(6, 4));
}

#[test]
fn test_clock_runs() {
    let t0 = time_start();
    let elapsed = time_stop(t0);
    let _ = elapsed;
}
