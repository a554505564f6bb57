//! Query surface, calibration, schedule search, and the per-record
//! executor.
//!
//! A query is a conjunction of substring predicates.  Calibration samples
//! the input, measures each raw filter's selectivity and the parser's
//! cost, and searches ordered combinations of raw filters for the one
//! with the least expected per-record work.  The executor then applies
//! the chosen filters to every record and hands only the survivors to the
//! parser callback.

use vstd::prelude::*;
use vstd::string::StrSliceExecFns;
use vstd::utf8::encode_utf8;
use crate::bitmap::{Bitmap, and_bits, popcount, empty_bits, lemma_popcount_le_len};
use crate::common::{time_start, time_stop};
use crate::decompose_ascii_rawfilters::{ascii_rawfilters, decompose, copy_bytes, flat_filters, flat_sources};
use crate::sparser_kernels::{memmem, occurs, valid_width};
use crate::utils::error::SparserError;

verus! {

/// Longest predicate kept; longer ones are truncated.
pub const SPARSER_MAX_QUERY_LENGTH: usize = 16;
/// Most predicates a query may hold.
pub const SPARSER_MAX_QUERY_COUNT: usize = 32;
/// Most raw filters the sampler considers.
pub const MAX_SUBSTRINGS: usize = 32;
/// Most records the sampler reads.
pub const MAX_SAMPLES: usize = 1024;
/// Deepest schedule searched.
pub const MAX_SCHEDULE_SIZE: usize = 4;
/// Records used to measure the parser's cost.
pub const PARSER_MEASUREMENT_SAMPLES: usize = 10;

/// A predicate, truncated to the maximum query length.
pub open spec fn truncated(b: Seq<u8>) -> Seq<u8> {
    if b.len() <= 16 {
        b
    } else {
        b.subrange(0, 16)
    }
}

/// A sparser query: a set of conjunctive byte-string predicates.
pub struct sparser_query {
    pub queries: Vec<Vec<u8>>,
}

impl sparser_query {
    /// Every predicate is non-empty, at most the maximum length, and
    /// there are not more than the maximum count.
    pub open spec fn wf(&self) -> bool {
        &&& self.queries@.len() <= 32
        &&& forall|i: int|
            0 <= i < self.queries@.len() ==> 1 <= #[trigger] self.queries@[i]@.len() <= 16
    }

    /// An empty query.
    pub fn new() -> (r: Self)
        ensures
            r.wf(),
            r.queries@.len() == 0,
    {
        sparser_query { queries: Vec::new() }
    }

    /// Append a predicate.  The predicate is truncated to the maximum
    /// length; an empty predicate or a full query is rejected.
    pub fn add(&mut self, string: String) -> (r: Result<(), SparserError>)
        requires
            old(self).wf(),
        ensures
            final(self).wf(),
            ({
                let bytes = encode_utf8(string@);
                match r {
                    Ok(()) => old(self).queries@.len() < 32 && bytes.len() >= 1
                        && final(self).queries.deep_view() == old(self).queries.deep_view().push(
                        truncated(bytes),
                    ),
                    Err(e) => e == SparserError::InputValidation && (old(self).queries@.len() >= 32
                        || bytes.len() == 0) && *final(self) == *old(self),
                }
            }),
    {
        if self.queries.len() >= SPARSER_MAX_QUERY_COUNT {
            return Err(SparserError::InputValidation);
        }
        let bytes = string.as_str().as_bytes_vec();
        if bytes.len() == 0 {
            return Err(SparserError::InputValidation);
        }
        let mut data = bytes;
        if data.len() > SPARSER_MAX_QUERY_LENGTH {
            data.truncate(SPARSER_MAX_QUERY_LENGTH);
            proof {
                assert(data@ =~= truncated(encode_utf8(string@)));
            }
        }
        let ghost prev = self.queries@;
        let ghost prevd = self.queries.deep_view();
        let ghost pushed = data@;
        self.queries.push(data);
        proof {
            assert forall|i: int| 0 <= i < prevd.len() implies self.queries.deep_view()[i]
                == prevd[i] by {
                assert(self.queries@[i] == prev[i]);
            }
            assert(self.queries.deep_view()[prevd.len() as int] == pushed);
            assert(self.queries.deep_view() =~= prevd.push(truncated(encode_utf8(string@))));
        }
        Ok(())
    }
}

impl Default for sparser_query {
    /// Same as `sparser_query::new`: an empty query.
    fn default() -> (r: Self)
        ensures
            r.wf(),
            r.queries@.len() == 0,
    {
        sparser_query::new()
    }
}

/// What the parser callback says of one record.
#[derive(Clone, Copy, Debug, PartialEq, Eq, Structural)]
pub enum ParserVerdict {
    /// The record satisfies the structured predicate.
    Accept,
    /// The record does not satisfy it.
    Reject,
    /// The record is structurally broken; counted, not fatal.
    Error,
}

/// The caller-supplied full parser.  Its verdict is a function of the
/// record bytes alone and must not drift while the core runs: the core
/// observes only the verdict, and everything proved of calibration and
/// scanning is stated against this criterion.
pub trait RecordParser {
    /// The acceptance criterion.
    spec fn verdict(&self, rec: Seq<u8>) -> ParserVerdict;

    /// Parse one record.  Internal state may change (counters, caches)
    /// but the criterion itself stays.
    fn parse(&mut self, record: &Vec<u8>) -> (r: ParserVerdict)
        ensures
            r == old(self).verdict(record@),
            forall|s: Seq<u8>| #[trigger] final(self).verdict(s) == old(self).verdict(s),
    ;
}

/// A parser that accepts every record and counts its calls.
pub struct AcceptAllParser {
    pub calls: u64,
}

impl RecordParser for AcceptAllParser {
    open spec fn verdict(&self, rec: Seq<u8>) -> ParserVerdict {
        ParserVerdict::Accept
    }

    fn parse(&mut self, record: &Vec<u8>) -> (r: ParserVerdict)
        ensures
            r == old(self).verdict(record@),
            forall|s: Seq<u8>| #[trigger] final(self).verdict(s) == old(self).verdict(s),
    {
        if self.calls < u64::MAX {
            self.calls = self.calls + 1;
        }
        ParserVerdict::Accept
    }
}

/// A parser that accepts exactly the records containing its pattern.
pub struct ContainsParser {
    pub pat: Vec<u8>,
}

impl RecordParser for ContainsParser {
    open spec fn verdict(&self, rec: Seq<u8>) -> ParserVerdict {
        if occurs(rec, self.pat@) {
            ParserVerdict::Accept
        } else {
            ParserVerdict::Reject
        }
    }

    fn parse(&mut self, record: &Vec<u8>) -> (r: ParserVerdict)
        ensures
            r == old(self).verdict(record@),
            forall|s: Seq<u8>| #[trigger] final(self).verdict(s) == old(self).verdict(s),
    {
        if memmem(record, &self.pat) {
            ParserVerdict::Accept
        } else {
            ParserVerdict::Reject
        }
    }
}

/// A parser that reports every record as structurally broken.
pub struct ErrorParser {
}

impl RecordParser for ErrorParser {
    open spec fn verdict(&self, rec: Seq<u8>) -> ParserVerdict {
        ParserVerdict::Error
    }

    fn parse(&mut self, record: &Vec<u8>) -> (r: ParserVerdict)
        ensures
            r == old(self).verdict(record@),
            forall|s: Seq<u8>| #[trigger] final(self).verdict(s) == old(self).verdict(s),
    {
        ParserVerdict::Error
    }
}

/// Index of the first `d` in `s`, or `s.len()` if there is none.
pub open spec fn first_delim(s: Seq<u8>, d: u8) -> nat
    decreases s.len(),
{
    if s.len() == 0 {
        0
    } else if s[0] == d {
        0
    } else {
        1 + first_delim(s.drop_first(), d)
    }
}

/// The delimiter-terminated records of `s`, in order.  Bytes after the
/// last delimiter belong to no record.
pub open spec fn split_records(s: Seq<u8>, d: u8) -> Seq<Seq<u8>>
    decreases s.len(),
{
    let i = first_delim(s, d);
    if i < s.len() {
        seq![s.subrange(0, i as int)] + split_records(s.subrange(i as int + 1, s.len() as int), d)
    } else {
        Seq::empty()
    }
}

/// `first_delim` names the least delimiter position.
pub proof fn lemma_first_delim(s: Seq<u8>, d: u8)
    ensures
        first_delim(s, d) <= s.len(),
        first_delim(s, d) < s.len() ==> s[first_delim(s, d) as int] == d,
        forall|j: int| 0 <= j < first_delim(s, d) ==> s[j] != d,
    decreases s.len(),
{
    if s.len() > 0 && s[0] != d {
        lemma_first_delim(s.drop_first(), d);
        assert forall|j: int| 0 <= j < first_delim(s, d) implies s[j] != d by {
            if j > 0 {
                assert(s.drop_first()[j - 1] == s[j]);
            }
        }
        if first_delim(s, d) < s.len() {
            assert(s.drop_first()[first_delim(s.drop_first(), d) as int] == s[first_delim(
                s,
                d,
            ) as int]);
        }
    }
}

/// A position below the length with a delimiter, and none before it, is
/// the first delimiter position; a delimiter-free sequence has none.
pub proof fn lemma_first_delim_is(s: Seq<u8>, d: u8, r: int)
    requires
        0 <= r <= s.len(),
        r < s.len() ==> s[r] == d,
        forall|j: int| 0 <= j < r ==> s[j] != d,
        r == s.len() ==> forall|j: int| 0 <= j < s.len() ==> s[j] != d,
    ensures
        first_delim(s, d) == r,
{
    lemma_first_delim(s, d);
    let f = first_delim(s, d) as int;
    if f < r {
        assert(s[f] == d);
    } else if r < f {
        assert(s[r] != d);
    }
}

/// The number of records never exceeds the byte length.
pub proof fn lemma_split_records_len(s: Seq<u8>, d: u8)
    ensures
        split_records(s, d).len() <= s.len(),
    decreases s.len(),
{
    let i = first_delim(s, d);
    if i < s.len() {
        lemma_split_records_len(s.subrange(i as int + 1, s.len() as int), d);
    }
}

/// Find the next delimiter at or after `from`; returns the input length
/// when there is none.
fn find_delim(s: &Vec<u8>, from: usize, d: u8) -> (r: usize)
    requires
        from <= s.len(),
    ensures
        from <= r <= s@.len(),
        r - from == first_delim(s@.subrange(from as int, s@.len() as int), d),
        r < s@.len() ==> s@[r as int] == d,
        forall|j: int| from <= j < r ==> s@[j] != d,
{
    let mut i = from;
    while i < s.len()
        invariant
            from <= i <= s@.len(),
            forall|j: int| from <= j < i ==> s@[j] != d,
        decreases s@.len() - i,
    {
        if s[i] == d {
            proof {
                let suf = s@.subrange(from as int, s@.len() as int);
                assert forall|j: int| 0 <= j < i - from implies suf[j] != d by {
                    assert(suf[j] == s@[from + j]);
                }
                assert(suf[i - from] == s@[i as int]);
                lemma_first_delim_is(suf, d, i - from);
            }
            return i;
        }
        i = i + 1;
    }
    proof {
        let suf = s@.subrange(from as int, s@.len() as int);
        assert forall|j: int| 0 <= j < suf.len() implies suf[j] != d by {
            assert(suf[j] == s@[from + j]);
        }
        lemma_first_delim_is(suf, d, suf.len() as int);
    }
    i
}

/// Split the input into its delimiter-terminated records.
pub fn frame_records(input: &Vec<u8>, delimiter: u8) -> (recs: Vec<Vec<u8>>)
    ensures
        recs.deep_view() == split_records(input@, delimiter),
{
    let mut recs: Vec<Vec<u8>> = Vec::new();
    proof {
        assert(input@.subrange(0, input@.len() as int) =~= input@);
        assert(recs.deep_view() + split_records(input@, delimiter) =~= split_records(
            input@,
            delimiter,
        ));
    }
    let mut pos: usize = 0;
    let mut r = find_delim(input, 0, delimiter);
    while r < input.len()
        invariant
            pos <= r <= input@.len(),
            r - pos == first_delim(input@.subrange(pos as int, input@.len() as int), delimiter),
            r < input@.len() ==> input@[r as int] == delimiter,
            split_records(input@, delimiter) == recs.deep_view() + split_records(
                input@.subrange(pos as int, input@.len() as int),
                delimiter,
            ),
        decreases input@.len() - pos,
    {
        let ghost suf = input@.subrange(pos as int, input@.len() as int);
        let record = crate::decompose_ascii_rawfilters::copy_range(input, pos, r - pos);
        let ghost prevd = recs.deep_view();
        let ghost prev = recs@;
        let ghost recbytes = record@;
        recs.push(record);
        proof {
            let fd = first_delim(suf, delimiter) as int;
            assert(fd == r - pos);
            assert(fd < suf.len());
            assert(split_records(suf, delimiter) == seq![suf.subrange(0, fd)] + split_records(
                suf.subrange(fd + 1, suf.len() as int),
                delimiter,
            ));
            assert(suf.subrange(0, fd) =~= input@.subrange(pos as int, r as int));
            assert(suf.subrange(fd + 1, suf.len() as int) =~= input@.subrange(
                r + 1,
                input@.len() as int,
            ));
            assert(recbytes =~= input@.subrange(pos as int, r as int));
            assert forall|i: int| 0 <= i < prevd.len() implies recs.deep_view()[i] == prevd[i] by {
                assert(recs@[i] == prev[i]);
            }
            assert(recs.deep_view()[prevd.len() as int] == recbytes);
            assert(recs.deep_view() =~= prevd.push(recbytes));
            assert(prevd + split_records(suf, delimiter) =~= recs.deep_view() + split_records(
                input@.subrange(r + 1, input@.len() as int),
                delimiter,
            ));
        }
        pos = r + 1;
        r = find_delim(input, pos, delimiter);
    }
    proof {
        let suf = input@.subrange(pos as int, input@.len() as int);
        assert(first_delim(suf, delimiter) == suf.len());
        assert(split_records(suf, delimiter) =~= Seq::<Seq<u8>>::empty());
        assert(recs.deep_view() + split_records(suf, delimiter) =~= recs.deep_view());
    }
    recs
}


/// Cumulative statistics of one scan.
pub struct sparser_stats {
    /// Records processed.
    pub records: u64,
    /// Times the whole filter conjunction matched.
    pub total_matches: u64,
    /// Records the raw filters passed.
    pub sparser_passed: u64,
    /// Records the callback accepted.
    pub callback_passed: u64,
    /// Records the callback reported as structurally broken.
    pub parse_errors: u64,
    /// Bytes walked forward to find a record boundary.
    pub bytes_seeked_forward: u64,
    /// Bytes walked backward to find a record boundary.
    pub bytes_seeked_backward: u64,
}

impl sparser_stats {
    /// Thousandths of raw-filter survivors that the callback also
    /// passed; zero when nothing survived the raw filters.
    pub fn fraction_passed_correct_permille(&self) -> (r: u64)
        ensures
            r == (if self.sparser_passed == 0 {
                0u64
            } else {
                (((self.callback_passed as int) * 1000) / (self.sparser_passed as int)) as u64
            }),
    {
        if self.sparser_passed == 0 {
            0
        } else {
            (((self.callback_passed as u128) * 1000) / (self.sparser_passed as u128)) as u64
        }
    }

    /// Thousandths of raw-filter survivors the callback rejected: the
    /// complement of the correct fraction, zero when nothing survived.
    pub fn fraction_passed_incorrect_permille(&self) -> (r: u64)
        ensures
            r == (if self.sparser_passed == 0 {
                0u64
            } else {
                let c = (((self.callback_passed as int) * 1000) / (
                self.sparser_passed as int)) as u64;
                if c >= 1000 {
                    0u64
                } else {
                    (1000 - c) as u64
                }
            }),
    {
        if self.sparser_passed == 0 {
            0
        } else {
            let c = self.fraction_passed_correct_permille();
            if c >= 1000 {
                0
            } else {
                1000 - c
            }
        }
    }
}

impl Default for sparser_stats {
    /// All counters zero.
    fn default() -> (r: Self)
        ensures
            r.records == 0,
            r.total_matches == 0,
            r.sparser_passed == 0,
            r.callback_passed == 0,
            r.parse_errors == 0,
            r.bytes_seeked_forward == 0,
            r.bytes_seeked_backward == 0,
    {
        sparser_stats {
            records: 0,
            total_matches: 0,
            sparser_passed: 0,
            callback_passed: 0,
            parse_errors: 0,
            bytes_seeked_forward: 0,
            bytes_seeked_backward: 0,
        }
    }
}

/// The record contains every filter of the conjunction.
pub open spec fn passes_filters(rec: Seq<u8>, filters: Seq<Seq<u8>>) -> bool {
    forall|j: int| 0 <= j < filters.len() ==> occurs(rec, #[trigger] filters[j])
}

/// Predicate picking the records that pass the raw filters.
pub open spec fn pass_pred(filters: Seq<Seq<u8>>) -> spec_fn(Seq<u8>) -> bool {
    |r: Seq<u8>| passes_filters(r, filters)
}

/// Predicate picking the records the executor emits: raw filters passed
/// and the parser accepted.
pub open spec fn emit_pred<P: RecordParser>(p: P, filters: Seq<Seq<u8>>) -> spec_fn(
    Seq<u8>,
) -> bool {
    |r: Seq<u8>| passes_filters(r, filters) && p.verdict(r) == ParserVerdict::Accept
}

/// Predicate picking the raw-filter survivors the parser reported broken.
pub open spec fn err_pred<P: RecordParser>(p: P, filters: Seq<Seq<u8>>) -> spec_fn(
    Seq<u8>,
) -> bool {
    |r: Seq<u8>| passes_filters(r, filters) && p.verdict(r) == ParserVerdict::Error
}

/// Filtering one more element keeps the filtered prefix and appends the
/// element exactly when it satisfies the predicate.
proof fn lemma_filter_push<A>(s: Seq<A>, x: A, pred: spec_fn(A) -> bool)
    ensures
        s.push(x).filter(pred) == if pred(x) {
            s.filter(pred).push(x)
        } else {
            s.filter(pred)
        },
{
    reveal(Seq::filter);
    assert(s.push(x).drop_last() =~= s);
    assert(s.push(x).last() == x);
}

/// The chosen schedule: raw filters to apply in order, their table
/// indices, and the expected scaled cost the search assigned to them.
pub struct Schedule {
    /// The raw-filter byte strings, in application order.
    pub filters: Vec<Vec<u8>>,
    /// Their indices into the raw-filter table.
    pub indices: Vec<usize>,
    /// Expected cost of the schedule, scaled by the sample size.
    pub best_cost: u128,
    /// Sample size the cost is scaled by.
    pub num_records: u64,
    /// Measured mean parser cost the search used.
    pub parse_cost: u64,
}

/// True iff every filter width is one the kernels support.
fn widths_supported(filters: &Vec<Vec<u8>>) -> (r: bool)
    ensures
        r == (forall|j: int|
            0 <= j < filters@.len() ==> valid_width(#[trigger] filters.deep_view()[j].len())),
{
    let mut j: usize = 0;
    while j < filters.len()
        invariant
            j <= filters@.len(),
            forall|t: int| 0 <= t < j ==> valid_width(#[trigger] filters.deep_view()[t].len()),
        decreases filters@.len() - j,
    {
        let w = filters[j].len();
        if !(w == 1 || w == 2 || w == 4) {
            proof {
                assert(filters.deep_view()[j as int] == filters@[j as int]@);
            }
            return false;
        }
        proof {
            assert(filters.deep_view()[j as int] == filters@[j as int]@);
        }
        j = j + 1;
    }
    true
}

/// Apply the filter conjunction to one record, stopping on first miss.
fn passes_all_filters(record: &Vec<u8>, filters: &Vec<Vec<u8>>) -> (r: bool)
    ensures
        r == passes_filters(record@, filters.deep_view()),
{
    let mut j: usize = 0;
    while j < filters.len()
        invariant
            j <= filters@.len(),
            forall|t: int| 0 <= t < j ==> occurs(record@, #[trigger] filters.deep_view()[t]),
        decreases filters@.len() - j,
    {
        let hit = memmem(record, &filters[j]);
        proof {
            assert(filters.deep_view()[j as int] == filters@[j as int]@);
        }
        if !hit {
            return false;
        }
        j = j + 1;
    }
    true
}

/// Per-record scan: frame each record, apply the chosen filters in
/// order with short-circuit rejection, and hand only the survivors to
/// the parser callback.  Emitted records are exactly the records, in
/// input order, that pass every filter and that the callback accepts.
/// Filters of unsupported width are rejected up front.
pub fn sparser_search<P: RecordParser>(
    input: &Vec<u8>,
    schedule: &Schedule,
    delimiter: u8,
    parser: &mut P,
) -> (res: Result<(Vec<Vec<u8>>, sparser_stats), SparserError>)
    ensures
        forall|s: Seq<u8>| #[trigger] final(parser).verdict(s) == old(parser).verdict(s),
        ({
            let recs = split_records(input@, delimiter);
            let fdv = schedule.filters.deep_view();
            match res {
                Err(e) => e == SparserError::KernelUnsupported && !(forall|j: int|
                    0 <= j < fdv.len() ==> valid_width(#[trigger] fdv[j].len())),
                Ok((emitted, stats)) => {
                    &&& (forall|j: int| 0 <= j < fdv.len() ==> valid_width(#[trigger] fdv[j].len()))
                    &&& emitted.deep_view() == recs.filter(emit_pred(*old(parser), fdv))
                    &&& stats.records == recs.len()
                    &&& stats.sparser_passed == recs.filter(pass_pred(fdv)).len()
                    &&& stats.total_matches == stats.sparser_passed
                    &&& stats.callback_passed == recs.filter(emit_pred(*old(parser), fdv)).len()
                    &&& stats.parse_errors == recs.filter(err_pred(*old(parser), fdv)).len()
                    &&& stats.bytes_seeked_forward == 0
                    &&& stats.bytes_seeked_backward == 0
                },
            }
        }),
{
    let ghost p0 = *parser;
    let ghost fdv = schedule.filters.deep_view();
    if !widths_supported(&schedule.filters) {
        return Err(SparserError::KernelUnsupported);
    }
    let recs = frame_records(input, delimiter);
    let ghost rdv = recs.deep_view();
    proof {
        lemma_split_records_len(input@, delimiter);
        assert(input@.len() <= usize::MAX) by {
            assert(input@.len() == input.len());
        }
    }
    let mut emitted: Vec<Vec<u8>> = Vec::new();
    let mut stats = sparser_stats {
        records: 0,
        total_matches: 0,
        sparser_passed: 0,
        callback_passed: 0,
        parse_errors: 0,
        bytes_seeked_forward: 0,
        bytes_seeked_backward: 0,
    };
    proof {
        assert(rdv.take(0) =~= Seq::<Seq<u8>>::empty());
        reveal(Seq::filter);
    }
    let mut k: usize = 0;
    while k < recs.len()
        invariant
            k <= recs@.len(),
            recs@.len() <= usize::MAX,
            rdv == recs.deep_view(),
            fdv == schedule.filters.deep_view(),
            forall|j: int| 0 <= j < fdv.len() ==> valid_width(#[trigger] fdv[j].len()),
            forall|s: Seq<u8>| #[trigger] parser.verdict(s) == p0.verdict(s),
            emitted.deep_view() == rdv.take(k as int).filter(emit_pred(p0, fdv)),
            stats.records == k,
            stats.sparser_passed == rdv.take(k as int).filter(pass_pred(fdv)).len(),
            stats.total_matches == stats.sparser_passed,
            stats.callback_passed == emitted.deep_view().len(),
            stats.parse_errors == rdv.take(k as int).filter(err_pred(p0, fdv)).len(),
            stats.sparser_passed <= k,
            stats.callback_passed <= k,
            stats.parse_errors <= k,
            stats.bytes_seeked_forward == 0,
            stats.bytes_seeked_backward == 0,
        decreases recs@.len() - k,
    {
        let record = &recs[k];
        proof {
            assert(rdv[k as int] == recs@[k as int]@);
        }
        let ghost rk = rdv[k as int];
        proof {
            assert(rdv.take(k + 1) =~= rdv.take(k as int).push(rk));
            lemma_filter_push(rdv.take(k as int), rk, emit_pred(p0, fdv));
            lemma_filter_push(rdv.take(k as int), rk, pass_pred(fdv));
            lemma_filter_push(rdv.take(k as int), rk, err_pred(p0, fdv));
        }
        let pass = passes_all_filters(record, &schedule.filters);
        if pass {
            stats.sparser_passed = stats.sparser_passed + 1;
            stats.total_matches = stats.total_matches + 1;
            let v = parser.parse(record);
            if v == ParserVerdict::Accept {
                let kept = copy_bytes(record);
                let ghost prevd = emitted.deep_view();
                let ghost prev = emitted@;
                emitted.push(kept);
                stats.callback_passed = stats.callback_passed + 1;
                proof {
                    assert forall|i: int| 0 <= i < prevd.len() implies emitted.deep_view()[i]
                        == prevd[i] by {
                        assert(emitted@[i] == prev[i]);
                    }
                    assert(emitted.deep_view()[prevd.len() as int] == rk);
                    assert(emitted.deep_view() =~= prevd.push(rk));
                }
            } else if v == ParserVerdict::Error {
                stats.parse_errors = stats.parse_errors + 1;
            }
        }
        stats.records = stats.records + 1;
        k = k + 1;
    }
    proof {
        assert(rdv.take(recs@.len() as int) =~= rdv);
        assert(emit_pred(p0, fdv) == emit_pred(*old(parser), fdv));
        assert(err_pred(p0, fdv) == err_pred(*old(parser), fdv));
    }
    Ok((emitted, stats))
}


/// Cost model: scanning one needle byte is charged eight cycles of
/// vector-lane work.
pub open spec fn spec_rf_cost(len: nat) -> int {
    8 * (len as int)
}

/// Cost of scanning one raw filter per record.
pub fn rf_cost(len: usize) -> (c: u64)
    requires
        len <= 16,
    ensures
        c == spec_rf_cost(len as nat),
{
    8 * (len as u64)
}

/// Saturating addition on `u64` counters.
fn sat_add(a: u64, b: u64) -> (r: u64)
    ensures
        r == if a + b <= u64::MAX {
            (a + b) as u64
        } else {
            u64::MAX
        },
{
    if b <= u64::MAX - a {
        a + b
    } else {
        u64::MAX
    }
}

/// The views of a vector of selectivity bitmaps.
pub open spec fn mask_views(masks: Seq<Bitmap>) -> Seq<Seq<bool>> {
    Seq::new(masks.len(), |i: int| masks[i]@)
}

/// Joint passthrough after the first `k` filters of a schedule: the AND
/// of their selectivity bitmaps.
pub open spec fn joint_of(masks: Seq<Seq<bool>>, sched: Seq<usize>, k: int) -> Seq<bool>
    decreases k,
{
    if k <= 1 {
        masks[sched[0] as int]
    } else {
        and_bits(joint_of(masks, sched, k - 1), masks[sched[k - 1] as int])
    }
}

/// Scan cost of the first `j` filters of a schedule, scaled by the
/// sample size `n`: the first filter runs on every record, each later
/// one only on the records surviving the filters before it.
pub open spec fn cost_front(
    regions: Seq<Seq<u8>>,
    masks: Seq<Seq<bool>>,
    n: int,
    sched: Seq<usize>,
    j: int,
) -> int
    decreases j,
{
    if j <= 1 {
        spec_rf_cost(regions[sched[0] as int].len()) * n
    } else {
        cost_front(regions, masks, n, sched, j - 1) + popcount(joint_of(masks, sched, j - 1))
            * spec_rf_cost(regions[sched[j - 1] as int].len())
    }
}

/// Expected cost of a schedule, scaled by the sample size `n`: the scan
/// cost of all its filters plus the full parser on the records that
/// survive them all.
pub open spec fn sched_cost(
    regions: Seq<Seq<u8>>,
    masks: Seq<Seq<bool>>,
    n: int,
    p: int,
    sched: Seq<usize>,
) -> int {
    cost_front(regions, masks, n, sched, sched.len() as int) + popcount(
        joint_of(masks, sched, sched.len() as int),
    ) * p
}

/// A schedule the search enumerates: one to four distinct filter
/// indices, in increasing order, with pairwise distinct source
/// predicates.
pub open spec fn valid_schedule(sched: Seq<usize>, nsub: int, sources: Seq<usize>) -> bool {
    &&& 1 <= sched.len() <= 4
    &&& forall|a: int| 0 <= a < sched.len() ==> (#[trigger] sched[a]) < nsub
    &&& forall|a: int, b: int|
        0 <= a < b < sched.len() ==> #[trigger] sched[a] < #[trigger] sched[b]
    &&& forall|a: int, b: int|
        0 <= a < b < sched.len() ==> sources[#[trigger] sched[a] as int] != sources[#[trigger] sched[b] as int]
}

/// Every mask is a full-capacity bit sequence.
pub open spec fn masks_full(masks: Seq<Seq<bool>>) -> bool {
    forall|i: int| 0 <= i < masks.len() ==> (#[trigger] masks[i]).len() == 1024
}

/// Indices drawn from the mask range.
pub open spec fn sched_in_range(sched: Seq<usize>, bound: int) -> bool {
    forall|a: int| 0 <= a < sched.len() ==> (#[trigger] sched[a]) < bound
}

/// The joint passthrough keeps the full capacity.
proof fn lemma_joint_len(masks: Seq<Seq<bool>>, sched: Seq<usize>, k: int)
    requires
        masks_full(masks),
        sched.len() >= 1,
        k <= sched.len(),
        sched_in_range(sched, masks.len() as int),
    ensures
        joint_of(masks, sched, k).len() == 1024,
    decreases k,
{
    if k > 1 {
        lemma_joint_len(masks, sched, k - 1);
    }
}

/// The scan cost of a schedule front is non-negative and small: at most
/// four filters of at most sixteen bytes over at most 1024 records.
proof fn lemma_cost_front_bounds(
    regions: Seq<Seq<u8>>,
    masks: Seq<Seq<bool>>,
    n: int,
    sched: Seq<usize>,
    j: int,
)
    requires
        masks_full(masks),
        1 <= j <= sched.len() <= 4,
        sched_in_range(sched, masks.len() as int),
        sched_in_range(sched, regions.len() as int),
        forall|a: int| 0 <= a < sched.len() ==> (#[trigger] regions[sched[a] as int]).len() <= 16,
        1 <= n <= 1024,
    ensures
        0 <= cost_front(regions, masks, n, sched, j) <= j * 0x20000,
    decreases j,
{
    if j <= 1 {
        assert(0 <= spec_rf_cost(regions[sched[0] as int].len()) * n <= 0x20000)
            by (nonlinear_arith)
            requires
                0 <= spec_rf_cost(regions[sched[0] as int].len()) <= 128,
                1 <= n <= 1024,
        ;
    } else {
        lemma_cost_front_bounds(regions, masks, n, sched, j - 1);
        lemma_joint_len(masks, sched, j - 1);
        lemma_popcount_le_len(joint_of(masks, sched, j - 1));
        assert(spec_rf_cost(regions[sched[j - 1] as int].len()) <= 128);
        assert(popcount(joint_of(masks, sched, j - 1)) * spec_rf_cost(
            regions[sched[j - 1] as int].len(),
        ) <= 1024 * 128) by (nonlinear_arith)
            requires
                0 <= popcount(joint_of(masks, sched, j - 1)) <= 1024,
                0 <= spec_rf_cost(regions[sched[j - 1] as int].len()) <= 128,
        ;
    }
}

/// A schedule's scaled cost is non-negative and far below `u128::MAX`.
proof fn lemma_sched_cost_bounds(
    regions: Seq<Seq<u8>>,
    masks: Seq<Seq<bool>>,
    n: int,
    p: int,
    sched: Seq<usize>,
)
    requires
        masks_full(masks),
        1 <= sched.len() <= 4,
        sched_in_range(sched, masks.len() as int),
        sched_in_range(sched, regions.len() as int),
        forall|a: int| 0 <= a < sched.len() ==> (#[trigger] regions[sched[a] as int]).len() <= 16,
        1 <= n <= 1024,
        0 <= p <= u64::MAX,
    ensures
        0 <= sched_cost(regions, masks, n, p, sched) < 0x8000_0000_0000_0000_0000,
{
    lemma_cost_front_bounds(regions, masks, n, sched, sched.len() as int);
    lemma_joint_len(masks, sched, sched.len() as int);
    lemma_popcount_le_len(joint_of(masks, sched, sched.len() as int));
    assert(popcount(joint_of(masks, sched, sched.len() as int)) * p <= 1024 * (u64::MAX as int))
        by (nonlinear_arith)
        requires
            0 <= popcount(joint_of(masks, sched, sched.len() as int)) <= 1024,
            0 <= p <= u64::MAX,
    ;
}

/// In a strictly increasing schedule the last element is at least the
/// element at `from` plus the distance between them.
proof fn lemma_increasing_bound(sched: Seq<usize>, from: int)
    requires
        0 <= from < sched.len(),
        forall|a: int, b: int|
            0 <= a < b < sched.len() ==> #[trigger] sched[a] < #[trigger] sched[b],
    ensures
        sched[sched.len() - 1] + 1 - sched.len() + from >= sched[from],
    decreases sched.len() - from,
{
    if from < sched.len() - 1 {
        lemma_increasing_bound(sched, from + 1);
        assert(sched[from] < sched[from + 1]);
    }
}

/// Mutable search frontier of the schedule search.
pub struct search_data {
    /// Number of records sampled.
    pub num_records: u64,
    /// One selectivity bitmap per considered raw filter.
    pub passthrough_masks: Vec<Bitmap>,
    /// Mean cost of the full parser per record.
    pub full_parse_cost: u64,
    /// Best scaled cost found so far; `u128::MAX` until one is found.
    pub best_cost: u128,
    /// The schedule with the best cost so far.
    pub best_schedule: Vec<usize>,
    /// Length of `best_schedule`.
    pub schedule_len: usize,
    /// Reusable joint-intersection bitmap.
    pub joint: Bitmap,
    /// Tuples skipped for sharing a source predicate.
    pub skipped: u64,
    /// Tuples whose cost was computed.
    pub processed: u64,
    /// Clock ticks spent processing and skipping.
    pub total_cycles: u64,
}

/// The search state is consistent with the raw-filter table: masks are
/// well-formed, there is at least one sampled record, the considered
/// filters have supported widths, and the best schedule found so far is
/// valid with exactly the cost recorded for it.
pub open spec fn sd_inv(sd: search_data, regions: Seq<Seq<u8>>, sources: Seq<usize>) -> bool {
    &&& sd.passthrough_masks@.len() <= regions.len()
    &&& sd.passthrough_masks@.len() <= 32
    &&& sources.len() == regions.len()
    &&& forall|i: int|
        0 <= i < sd.passthrough_masks@.len() ==> (#[trigger] sd.passthrough_masks@[i]).wf()
    &&& sd.joint.wf()
    &&& 1 <= sd.num_records <= 1024
    &&& forall|i: int|
        0 <= i < sd.passthrough_masks@.len() ==> valid_width((#[trigger] regions[i]).len())
    &&& sd.schedule_len == sd.best_schedule@.len()
    &&& (sd.schedule_len == 0 ==> sd.best_cost == u128::MAX)
    &&& (sd.schedule_len > 0 ==> valid_schedule(
        sd.best_schedule@,
        sd.passthrough_masks@.len() as int,
        sources,
    ) && sd.best_cost == sched_cost(
        regions,
        mask_views(sd.passthrough_masks@),
        sd.num_records as int,
        sd.full_parse_cost as int,
        sd.best_schedule@,
    ))
}


/// Recursive lexicographic enumeration of filter combinations.
///
/// `result[0 .. result_len - len]` holds the indices chosen so far, in
/// increasing order; `len` more are to be chosen, starting at `start`.
/// At a leaf the tuple is skipped if two chosen filters share a source
/// predicate; otherwise its cost under the model is computed with the
/// reusable joint bitmap, and the best schedule is updated if the cost
/// beats it.  Afterwards the best cost is at or below the cost of every
/// complete valid schedule extending the prefix from `start`.
pub fn search_schedules(
    predicates: &ascii_rawfilters,
    sd: &mut search_data,
    len: usize,
    start: usize,
    result: &mut Vec<usize>,
    result_len: usize,
)
    requires
        sd_inv(*old(sd), predicates.region.deep_view(), predicates.sources@),
        old(result)@.len() == 4,
        1 <= result_len <= 4,
        len <= result_len,
        start <= old(sd).passthrough_masks@.len(),
        forall|a: int|
            0 <= a < result_len - len ==> (#[trigger] old(result)@[a] as int) < old(
                sd,
            ).passthrough_masks@.len(),
        forall|a: int, b: int|
            0 <= a < b < result_len - len ==> #[trigger] old(result)@[a] < #[trigger] old(
                result,
            )@[b],
        forall|a: int| 0 <= a < result_len - len ==> (#[trigger] old(result)@[a]) < start,
    ensures
        sd_inv(*final(sd), predicates.region.deep_view(), predicates.sources@),
        final(sd).passthrough_masks == old(sd).passthrough_masks,
        final(sd).num_records == old(sd).num_records,
        final(sd).full_parse_cost == old(sd).full_parse_cost,
        final(sd).best_cost <= old(sd).best_cost,
        final(result)@.len() == 4,
        final(result)@.subrange(0, result_len - len) == old(result)@.subrange(
            0,
            result_len - len,
        ),
        forall|s: Seq<usize>|
            #![trigger valid_schedule(s, old(sd).passthrough_masks@.len() as int, predicates.sources@)]
            (s.len() == result_len && s.subrange(0, result_len - len) == old(result)@.subrange(
                0,
                result_len - len,
            ) && (len > 0 ==> s[result_len - len] >= start) && valid_schedule(
                s,
                old(sd).passthrough_masks@.len() as int,
                predicates.sources@,
            )) ==> final(sd).best_cost <= sched_cost(
                predicates.region.deep_view(),
                mask_views(old(sd).passthrough_masks@),
                old(sd).num_records as int,
                old(sd).full_parse_cost as int,
                s,
            ),
    decreases len,
{
    let ghost regions = predicates.region.deep_view();
    let ghost sources = predicates.sources@;
    let ghost views = mask_views(old(sd).passthrough_masks@);
    let ghost prefix = old(result)@.subrange(0, result_len - len);
    let nsub = sd.passthrough_masks.len();

    if len == 0 {
        let t0 = time_start();
        let ghost sd0 = *sd;
        proof {
            assert(prefix =~= result@.subrange(0, result_len as int));
        }
        // Skip rule: two chosen filters with one source predicate.
        let mut a: usize = 0;
        while a < result_len
            invariant
                a <= result_len,
                result_len <= 4,
                result@.len() == 4,
                *sd == sd0,
                sd0 == *old(sd),
                result@ == old(result)@,
                views == mask_views(sd0.passthrough_masks@),
                sd_inv(*sd, regions, sources),
                nsub == sd.passthrough_masks@.len(),
                sources == predicates.sources@,
                regions == predicates.region.deep_view(),
                sources.len() == regions.len(),
                len == 0,
                prefix == result@.subrange(0, result_len as int),
                forall|x: int|
                    0 <= x < result_len ==> (#[trigger] result@[x] as int) < nsub,
                forall|x: int, y: int|
                    0 <= x < y < result_len && x < a ==> sources[#[trigger] result@[x] as int]
                        != sources[#[trigger] result@[y] as int],
            decreases result_len - a,
        {
            let mut b: usize = a + 1;
            while b < result_len
                invariant
                    a < b <= result_len,
                    a < result_len <= 4,
                    result@.len() == 4,
                    *sd == sd0,
                    sd0 == *old(sd),
                    result@ == old(result)@,
                    views == mask_views(sd0.passthrough_masks@),
                    sd_inv(*sd, regions, sources),
                    nsub == sd.passthrough_masks@.len(),
                    sources == predicates.sources@,
                    regions == predicates.region.deep_view(),
                    sources.len() == regions.len(),
                    len == 0,
                    prefix == result@.subrange(0, result_len as int),
                    forall|x: int|
                        0 <= x < result_len ==> (#[trigger] result@[x] as int) < nsub,
                    forall|x: int, y: int|
                        0 <= x < y < result_len && x < a ==> sources[#[trigger] result@[x] as int]
                            != sources[#[trigger] result@[y] as int],
                    forall|y: int|
                        a < y < b ==> sources[result@[a as int] as int] != sources[#[trigger] result@[y] as int],
                decreases result_len - b,
            {
                if predicates.sources[result[a]] == predicates.sources[result[b]] {
                    sd.skipped = sat_add(sd.skipped, 1);
                    sd.total_cycles = sat_add(sd.total_cycles, time_stop(t0));
                    proof {
                        assert(!valid_schedule(prefix, nsub as int, sources)) by {
                            assert(prefix[a as int] == result@[a as int]);
                            assert(prefix[b as int] == result@[b as int]);
                        }
                        assert forall|s: Seq<usize>|
                            #![trigger valid_schedule(s, sd0.passthrough_masks@.len() as int, sources)]
                            (s.len() == result_len && s.subrange(0, result_len - len)
                                == prefix && valid_schedule(
                                s,
                                sd0.passthrough_masks@.len() as int,
                                sources,
                            )) implies final(sd).best_cost <= sched_cost(
                            regions,
                            views,
                            sd0.num_records as int,
                            sd0.full_parse_cost as int,
                            s,
                        ) by {
                            assert(s =~= prefix);
                        }
                    }
                    return;
                }
                b = b + 1;
            }
            a = a + 1;
        }
        proof {
            assert(forall|x: int, y: int|
                0 <= x < y < result_len ==> sources[#[trigger] result@[x] as int]
                    != sources[#[trigger] result@[y] as int]);
        }
        // Cost of this tuple under the model.
        let first = result[0];
        sd.joint.copy_from(&sd.passthrough_masks[first]);
        proof {
            assert(views[first as int] == sd0.passthrough_masks@[first as int]@);
            assert(sd.joint@ == joint_of(views, prefix, 1));
        }
        proof {
            assert(regions[first as int] == predicates.region@[first as int]@);
            assert(valid_width(regions[first as int].len()));
        }
        let c0 = rf_cost(predicates.region[first].len());
        let n = sd.num_records;
        proof {
            assert((c0 as int) * (n as int) <= 0x20000) by (nonlinear_arith)
                requires
                    0 <= c0 <= 128,
                    0 <= n <= 1024,
            ;
        }
        let mut total: u128 = (c0 as u128) * (n as u128);
        proof {
            assert(total == cost_front(regions, views, n as int, prefix, 1));
            assert(total <= 0x20000) by (nonlinear_arith)
                requires
                    total == (c0 as int) * (n as int),
                    0 <= c0 <= 128,
                    0 <= n <= 1024,
            ;
        }
        let mut j: usize = 1;
        while j < result_len
            invariant
                1 <= j <= result_len,
                result_len <= 4,
                result@.len() == 4,
                nsub == sd.passthrough_masks@.len(),
                sources == predicates.sources@,
                regions == predicates.region.deep_view(),
                views == mask_views(sd0.passthrough_masks@),
                n == sd0.num_records,
                sd.passthrough_masks == sd0.passthrough_masks,
                sd.num_records == sd0.num_records,
                sd.full_parse_cost == sd0.full_parse_cost,
                sd.best_cost == sd0.best_cost,
                sd.best_schedule == sd0.best_schedule,
                sd.schedule_len == sd0.schedule_len,
                sd_inv(*sd, regions, sources),
                prefix.len() == result_len,
                forall|x: int|
                    0 <= x < result_len ==> (#[trigger] result@[x] as int) < nsub,
                forall|x: int| 0 <= x < result_len ==> prefix[x] == result@[x],
                sd.joint.wf(),
                sd.joint@ == joint_of(views, prefix, j as int),
                total == cost_front(regions, views, n as int, prefix, j as int),
                total <= (j as int) * 0x20000,
            decreases result_len - j,
        {
            let pop = sd.joint.count();
            let idx = result[j];
            proof {
                assert(regions[idx as int] == predicates.region@[idx as int]@);
                assert(valid_width(regions[idx as int].len()));
            }
            let cj = rf_cost(predicates.region[idx].len());
            proof {
                assert((pop as int) * (cj as int) <= 0x20000) by (nonlinear_arith)
                    requires
                        0 <= pop <= 1024,
                        0 <= cj <= 128,
                ;
            }
            total = total + (pop as u128) * (cj as u128);
            let nj = sd.joint.and(&sd.passthrough_masks[idx]);
            sd.joint = nj;
            proof {
                assert(views[idx as int] == sd0.passthrough_masks@[idx as int]@);
                assert(sd.joint@ == joint_of(views, prefix, j + 1));
                assert(total == cost_front(regions, views, n as int, prefix, j + 1));
            }
            j = j + 1;
        }
        let popk = sd.joint.count();
        let p = sd.full_parse_cost;
        proof {
            assert((popk as int) * (p as int) <= 1024 * (u64::MAX as int)) by (nonlinear_arith)
                requires
                    0 <= popk <= 1024,
                    0 <= p <= u64::MAX,
            ;
        }
        total = total + (popk as u128) * (p as u128);
        proof {
            assert(total == sched_cost(regions, views, n as int, p as int, prefix));
        }
        sd.processed = sat_add(sd.processed, 1);
        sd.total_cycles = sat_add(sd.total_cycles, time_stop(t0));
        if total < sd.best_cost {
            let mut bs: Vec<usize> = Vec::new();
            let mut c: usize = 0;
            while c < result_len
                invariant
                    c <= result_len,
                    result_len <= 4,
                    result@.len() == 4,
                    prefix.len() == result_len,
                    forall|x: int| 0 <= x < result_len ==> prefix[x] == result@[x],
                    bs@.len() == c,
                    forall|x: int| 0 <= x < c ==> #[trigger] bs@[x] == prefix[x],
                decreases result_len - c,
            {
                bs.push(result[c]);
                c = c + 1;
            }
            proof {
                assert(bs@ =~= prefix);
            }
            sd.best_schedule = bs;
            sd.schedule_len = result_len;
            sd.best_cost = total;
            proof {
                assert(valid_schedule(prefix, nsub as int, sources));
            }
        }
        proof {
            assert forall|s: Seq<usize>|
                #![trigger valid_schedule(s, sd0.passthrough_masks@.len() as int, sources)]
                (s.len() == result_len && s.subrange(0, result_len - len) == prefix
                    && valid_schedule(s, sd0.passthrough_masks@.len() as int, sources))
                implies final(sd).best_cost <= sched_cost(
                regions,
                views,
                sd0.num_records as int,
                sd0.full_parse_cost as int,
                s,
            ) by {
                assert(s =~= prefix);
            }
        }
        return;
    }

    // Choose the next index and recurse.
    let ghost sd0 = *sd;
    let mut i = start;
    while i + len <= nsub
        invariant
            start <= i <= nsub + 1,
            1 <= len <= result_len <= 4,
            nsub == sd0.passthrough_masks@.len(),
            nsub <= 32,
            sources == predicates.sources@,
            regions == predicates.region.deep_view(),
            views == mask_views(sd0.passthrough_masks@),
            prefix.len() == result_len - len,
            sd.passthrough_masks == sd0.passthrough_masks,
            sd.num_records == sd0.num_records,
            sd.full_parse_cost == sd0.full_parse_cost,
            sd.best_cost <= sd0.best_cost,
            sd_inv(*sd, regions, sources),
            result@.len() == 4,
            result@.subrange(0, result_len - len) == prefix,
            forall|a: int| 0 <= a < result_len - len ==> (#[trigger] prefix[a] as int) < nsub,
            forall|a: int, b: int|
                0 <= a < b < result_len - len ==> #[trigger] prefix[a] < #[trigger] prefix[b],
            forall|a: int| 0 <= a < result_len - len ==> (#[trigger] prefix[a]) < start,
            forall|s: Seq<usize>|
                #![trigger valid_schedule(s, sd0.passthrough_masks@.len() as int, sources)]
                (s.len() == result_len && s.subrange(0, result_len - len) == prefix && start <= s[
                    result_len - len] < i && valid_schedule(
                    s,
                    sd0.passthrough_masks@.len() as int,
                    sources,
                )) ==> sd.best_cost <= sched_cost(
                    regions,
                    views,
                    sd0.num_records as int,
                    sd0.full_parse_cost as int,
                    s,
                ),
        decreases nsub - i,
    {
        result.set(result_len - len, i);
        proof {
            assert(result@.subrange(0, result_len - len) =~= prefix);
            assert(result@.subrange(0, result_len - (len - 1)) =~= prefix.push(i));
            assert forall|a: int| 0 <= a < result_len - (len - 1) implies (#[trigger] result@[a]
                as int) < nsub by {
                if a < result_len - len {
                    assert(result@.subrange(0, result_len - len)[a] == result@[a]);
                    assert(prefix[a] == result@[a]);
                } else {
                    assert(result@[a] == i);
                }
            }
            assert forall|a: int, b: int| 0 <= a < b < result_len - (len - 1) implies #[trigger]
                result@[a] < #[trigger] result@[b] by {
                if b < result_len - len {
                    assert(prefix[a] == result@[a]);
                    assert(prefix[b] == result@[b]);
                } else {
                    assert(result@[b] == i);
                    assert(prefix[a] == result@[a]);
                    assert(prefix[a] < start);
                }
            }
            assert forall|a: int| 0 <= a < result_len - (len - 1) implies (#[trigger] result@[a])
                < i + 1 by {
                if a < result_len - len {
                    assert(prefix[a] == result@[a]);
                    assert(prefix[a] < start);
                } else {
                    assert(result@[a] == i);
                }
            }
        }
        search_schedules(predicates, sd, len - 1, i + 1, result, result_len);
        proof {
            assert forall|s: Seq<usize>|
                #![trigger valid_schedule(s, sd0.passthrough_masks@.len() as int, sources)]
                (s.len() == result_len && s.subrange(0, result_len - len) == prefix && start <= s[
                    result_len - len] < i + 1 && valid_schedule(
                    s,
                    sd0.passthrough_masks@.len() as int,
                    sources,
                )) implies sd.best_cost <= sched_cost(
                regions,
                views,
                sd0.num_records as int,
                sd0.full_parse_cost as int,
                s,
            ) by {
                if s[result_len - len] < i {
                    // Covered by an earlier iteration; the best cost only fell.
                } else {
                    assert(s.subrange(0, result_len - (len - 1)) =~= prefix.push(i)) by {
                        assert(s[result_len - len] == i);
                        assert forall|t: int| 0 <= t < result_len - len + 1 implies s.subrange(
                            0,
                            result_len - (len - 1),
                        )[t] == prefix.push(i)[t] by {
                            if t < result_len - len {
                                assert(s.subrange(0, result_len - len)[t] == s[t]);
                            }
                        }
                    }
                    if len - 1 > 0 {
                        assert(s[result_len - (len - 1)] > s[result_len - len]);
                    }
                }
            }
        }
        i = i + 1;
    }
    proof {
        assert forall|s: Seq<usize>|
            #![trigger valid_schedule(s, sd0.passthrough_masks@.len() as int, sources)]
            (s.len() == result_len && s.subrange(0, result_len - len) == prefix && s[result_len
                - len] >= start && valid_schedule(
                s,
                sd0.passthrough_masks@.len() as int,
                sources,
            )) implies final(sd).best_cost <= sched_cost(
            regions,
            views,
            sd0.num_records as int,
            sd0.full_parse_cost as int,
            s,
        ) by {
            lemma_increasing_bound(s, result_len - len);
            assert(s[s.len() - 1] < nsub);
            assert(s[result_len - len] < i);
        }
    }
}

/// Search every schedule depth up to the maximum and leave the cheapest
/// valid schedule in the search state.  Afterwards the best cost is at
/// or below the modelled cost of every valid schedule.
pub fn search_best(predicates: &ascii_rawfilters, sd: &mut search_data)
    requires
        sd_inv(*old(sd), predicates.region.deep_view(), predicates.sources@),
        old(sd).schedule_len == 0,
        old(sd).passthrough_masks@.len() >= 1,
    ensures
        sd_inv(*final(sd), predicates.region.deep_view(), predicates.sources@),
        final(sd).passthrough_masks == old(sd).passthrough_masks,
        final(sd).num_records == old(sd).num_records,
        final(sd).full_parse_cost == old(sd).full_parse_cost,
        final(sd).schedule_len >= 1,
        forall|s: Seq<usize>|
            #![trigger valid_schedule(s, old(sd).passthrough_masks@.len() as int, predicates.sources@)]
            valid_schedule(s, old(sd).passthrough_masks@.len() as int, predicates.sources@)
                ==> final(sd).best_cost <= sched_cost(
                predicates.region.deep_view(),
                mask_views(old(sd).passthrough_masks@),
                old(sd).num_records as int,
                old(sd).full_parse_cost as int,
                s,
            ),
{
    let ghost regions = predicates.region.deep_view();
    let ghost sources = predicates.sources@;
    let ghost views = mask_views(old(sd).passthrough_masks@);
    let ghost sd0 = *sd;
    let mut result: Vec<usize> = Vec::new();
    result.push(0);
    result.push(0);
    result.push(0);
    result.push(0);
    let mut k: usize = 1;
    while k <= MAX_SCHEDULE_SIZE
        invariant
            1 <= k <= 5,
            result@.len() == 4,
            sources == predicates.sources@,
            regions == predicates.region.deep_view(),
            views == mask_views(sd0.passthrough_masks@),
            sd.passthrough_masks == sd0.passthrough_masks,
            sd.num_records == sd0.num_records,
            sd.full_parse_cost == sd0.full_parse_cost,
            sd_inv(*sd, regions, sources),
            forall|s: Seq<usize>|
                #![trigger valid_schedule(s, sd0.passthrough_masks@.len() as int, sources)]
                (s.len() < k && valid_schedule(s, sd0.passthrough_masks@.len() as int, sources))
                    ==> sd.best_cost <= sched_cost(
                    regions,
                    views,
                    sd0.num_records as int,
                    sd0.full_parse_cost as int,
                    s,
                ),
        decreases 5 - k,
    {
        search_schedules(predicates, sd, k, 0, &mut result, k);
        proof {
            assert forall|s: Seq<usize>|
                #![trigger valid_schedule(s, sd0.passthrough_masks@.len() as int, sources)]
                (s.len() < k + 1 && valid_schedule(s, sd0.passthrough_masks@.len() as int, sources))
                    implies sd.best_cost <= sched_cost(
                regions,
                views,
                sd0.num_records as int,
                sd0.full_parse_cost as int,
                s,
            ) by {
                if s.len() == k {
                    assert(s.subrange(0, 0) =~= result@.subrange(0, 0));
                    assert(s[0] >= 0);
                }
            }
        }
        k = k + 1;
    }
    proof {
        let single = seq![0usize];
        assert(valid_schedule(single, sd0.passthrough_masks@.len() as int, sources));
        assert forall|i: int| 0 <= i < views.len() implies (#[trigger] views[i]).len()
            == 1024 by {
            crate::bitmap::lemma_view_len(sd0.passthrough_masks@[i]);
        }
        assert(masks_full(views));
        assert(sched_in_range(single, views.len() as int));
        assert(sched_in_range(single, regions.len() as int));
        assert(regions[0].len() <= 16);
        lemma_sched_cost_bounds(
            regions,
            views,
            sd0.num_records as int,
            sd0.full_parse_cost as int,
            single,
        );
        assert(final(sd).best_cost < u128::MAX);
    }
}


/// What the sampler measured: the sample size, one selectivity bitmap
/// per considered raw filter, the mean parser cost, and counters.
pub struct SampleOutcome {
    /// Number of sample records processed.
    pub num_records: usize,
    /// Bit `k` of bitmap `i` is set iff filter `i` matched record `k`.
    pub masks: Vec<Bitmap>,
    /// Mean parser cost over the measured records.
    pub parse_cost: u64,
    /// Records the parser accepted among the measured ones.
    pub passed: u64,
    /// Clock ticks spent in the substring scans.
    pub grep_time: u64,
}

/// The selectivity bitmaps the sampler is specified to produce: bit `k`
/// of mask `i` is set iff record `k` is sampled and contains filter `i`.
pub open spec fn sample_mask_views(
    recs: Seq<Seq<u8>>,
    regions: Seq<Seq<u8>>,
    nsub: int,
    n: int,
) -> Seq<Seq<bool>> {
    Seq::new(nsub as nat, |i: int| Seq::new(1024, |k: int| 0 <= k < n && occurs(recs[k], regions[i])))
}

/// Copy a vector of byte strings.
fn copy_byte_vecs(src: &Vec<Vec<u8>>) -> (r: Vec<Vec<u8>>)
    ensures
        r.deep_view() == src.deep_view(),
{
    let mut r: Vec<Vec<u8>> = Vec::new();
    let mut i: usize = 0;
    while i < src.len()
        invariant
            i <= src@.len(),
            r@.len() == i,
            forall|t: int| 0 <= t < i ==> #[trigger] r.deep_view()[t] == src.deep_view()[t],
        decreases src@.len() - i,
    {
        let ghost prev = r@;
        let ghost prevd = r.deep_view();
        let b = copy_bytes(&src[i]);
        r.push(b);
        proof {
            assert forall|t: int| 0 <= t < i + 1 implies #[trigger] r.deep_view()[t]
                == src.deep_view()[t] by {
                if t < i {
                    assert(r@[t] == prev[t]);
                    assert(r.deep_view()[t] == prevd[t]);
                } else {
                    assert(r.deep_view()[t] == r@[t]@);
                    assert(src.deep_view()[t] == src@[t]@);
                }
            }
        }
        i = i + 1;
    }
    proof {
        assert(r.deep_view() =~= src.deep_view());
    }
    r
}

/// Stream the sample records: for every considered raw filter, record a
/// presence bit per sampled record, and time the parser callback on the
/// first few records to estimate its mean cost.  Fails when the sample
/// holds no delimited record.
pub fn sample_selectivity<P: RecordParser>(
    sample: &Vec<u8>,
    predicates: &ascii_rawfilters,
    delimiter: u8,
    parser: &mut P,
) -> (res: Result<SampleOutcome, SparserError>)
    ensures
        forall|s: Seq<u8>| #[trigger] final(parser).verdict(s) == old(parser).verdict(s),
        ({
            let recs = split_records(sample@, delimiter);
            let regions = predicates.region.deep_view();
            let nsub = if regions.len() <= 32 {
                regions.len() as int
            } else {
                32
            };
            match res {
                Err(e) => e == SparserError::InsufficientSamples && recs.len() == 0,
                Ok(out) => {
                    &&& recs.len() >= 1
                    &&& out.num_records == (if recs.len() <= 1024 {
                        recs.len() as int
                    } else {
                        1024
                    })
                    &&& 1 <= out.num_records <= 1024
                    &&& out.masks@.len() == nsub
                    &&& forall|i: int| 0 <= i < nsub ==> (#[trigger] out.masks@[i]).wf()
                    &&& mask_views(out.masks@) == sample_mask_views(
                        recs,
                        regions,
                        nsub,
                        out.num_records as int,
                    )
                },
            }
        }),
{
    let ghost regions = predicates.region.deep_view();
    let recs = frame_records(sample, delimiter);
    let ghost rdv = recs.deep_view();
    if recs.len() == 0 {
        return Err(SparserError::InsufficientSamples);
    }
    let nsub = if predicates.region.len() > MAX_SUBSTRINGS {
        MAX_SUBSTRINGS
    } else {
        predicates.region.len()
    };
    let mut masks: Vec<Bitmap> = Vec::new();
    while masks.len() < nsub
        invariant
            masks@.len() <= nsub,
            forall|i: int| 0 <= i < masks@.len() ==> (#[trigger] masks@[i]).wf(),
            forall|i: int| 0 <= i < masks@.len() ==> (#[trigger] masks@[i])@ == empty_bits(),
        decreases nsub - masks@.len(),
    {
        masks.push(Bitmap::new());
    }
    let n = if recs.len() > MAX_SAMPLES {
        MAX_SAMPLES
    } else {
        recs.len()
    };
    let ghost p0 = *parser;
    let mut parse_cost_total: u64 = 0;
    let mut parsed: u64 = 0;
    let mut passed: u64 = 0;
    let mut grep_time: u64 = 0;
    let mut k: usize = 0;
    while k < n
        invariant
            k <= n,
            1 <= n <= 1024,
            n <= rdv.len(),
            rdv == recs.deep_view(),
            regions == predicates.region.deep_view(),
            nsub == (if regions.len() <= 32 {
                regions.len() as int
            } else {
                32
            }),
            masks@.len() == nsub,
            forall|i: int| 0 <= i < nsub ==> (#[trigger] masks@[i]).wf(),
            forall|i: int, kk: int|
                0 <= i < nsub && 0 <= kk < 1024 ==> ((#[trigger] masks@[i]@[kk]) <==> (kk < k
                    && occurs(rdv[kk], regions[i]))),
            forall|s: Seq<u8>| #[trigger] parser.verdict(s) == p0.verdict(s),
            parsed == (if k <= 10 {
                k as int
            } else {
                10
            }),
            passed <= parsed,
        decreases n - k,
    {
        let record = &recs[k];
        proof {
            assert(rdv[k as int] == recs@[k as int]@);
        }
        let tg = time_start();
        let mut i: usize = 0;
        while i < nsub
            invariant
                i <= nsub,
                k < n <= 1024,
                n <= rdv.len(),
                rdv == recs.deep_view(),
                regions == predicates.region.deep_view(),
                nsub == (if regions.len() <= 32 {
                    regions.len() as int
                } else {
                    32
                }),
                masks@.len() == nsub,
                record@ == rdv[k as int],
                forall|t: int| 0 <= t < nsub ==> (#[trigger] masks@[t]).wf(),
                forall|t: int, kk: int|
                    0 <= t < nsub && 0 <= kk < 1024 ==> ((#[trigger] masks@[t]@[kk]) <==> ((kk < k
                        && occurs(rdv[kk], regions[t])) || (kk == k && t < i && occurs(
                        rdv[k as int],
                        regions[t],
                    )))),
            decreases nsub - i,
        {
            let hit = memmem(record, &predicates.region[i]);
            proof {
                assert(regions[i as int] == predicates.region@[i as int]@);
            }
            if hit {
                let ghost pre = masks@;
                let mut bm = Bitmap::new();
                bm.copy_from(&masks[i]);
                bm.set(k);
                masks.set(i, bm);
                proof {
                    crate::bitmap::lemma_view_len(pre[i as int]);
                    assert(masks@ == pre.update(i as int, masks@[i as int]));
                    assert(masks@[i as int]@ == pre[i as int]@.update(k as int, true));
                    assert forall|t: int, kk: int|
                        0 <= t < nsub && 0 <= kk < 1024 implies ((#[trigger] masks@[t]@[kk]) <==> ((
                    kk < k && occurs(rdv[kk], regions[t])) || (kk == k && t < i + 1 && occurs(
                        rdv[k as int],
                        regions[t],
                    )))) by {
                        crate::bitmap::lemma_view_len(pre[t]);
                        if t != i {
                            assert(masks@[t] == pre[t]);
                        }
                    }
                }
            }
            i = i + 1;
        }
        grep_time = sat_add(grep_time, time_stop(tg));
        if k < PARSER_MEASUREMENT_SAMPLES {
            let t0 = time_start();
            let v = parser.parse(record);
            let el = time_stop(t0);
            parse_cost_total = sat_add(parse_cost_total, el);
            parsed = parsed + 1;
            if v == ParserVerdict::Accept {
                passed = passed + 1;
            }
        }
        k = k + 1;
    }
    let parse_cost = parse_cost_total / parsed;
    proof {
        assert forall|i: int| 0 <= i < nsub implies (#[trigger] mask_views(masks@)[i])
            == sample_mask_views(rdv, regions, nsub as int, n as int)[i] by {
            crate::bitmap::lemma_view_len(masks@[i]);
            assert(mask_views(masks@)[i] =~= sample_mask_views(rdv, regions, nsub as int, n as int)[i]);
        }
        assert(mask_views(masks@) =~= sample_mask_views(rdv, regions, nsub as int, n as int));
    }
    Ok(SampleOutcome { num_records: n, masks, parse_cost, passed, grep_time })
}


/// Wall-clock accounting of one calibration run.  The values are clock
/// observations; nothing is promised of them.
pub struct calibrate_timing {
    /// Time spent sampling, microseconds.
    pub sampling_total: u64,
    /// Time spent searching schedules, microseconds.
    pub searching_total: u64,
    /// Time spent in the substring scans, microseconds.
    pub grepping_total: u64,
    /// Mean ticks per schedule considered.
    pub cycles_per_schedule_avg: u64,
    /// Mean ticks per measured parser call.
    pub cycles_per_parse_avg: u64,
    /// Schedules whose cost was computed.
    pub processed: u64,
    /// Schedules skipped for sharing a source predicate.
    pub skipped: u64,
    /// End-to-end time, microseconds.
    pub total: u64,
}

/// Calibrate: decompose the query into raw filters, sample their
/// selectivities and the parser's cost, and search for the schedule
/// with the least expected per-record cost.
///
/// On success the returned schedule is a valid one — one to four filter
/// indices with pairwise distinct source predicates — whose recorded
/// cost equals the model's cost of its filters over the sampled
/// selectivity bitmaps, and no valid schedule has a lower modelled cost
/// under the measured parser cost.  An empty query, a filter of
/// unsupported width, and a sample without one delimited record are
/// rejected, in that order of precedence.
pub fn sparser_calibrate<P: RecordParser>(
    sample: &Vec<u8>,
    query: &sparser_query,
    delimiter: u8,
    parser: &mut P,
) -> (res: Result<(Schedule, calibrate_timing), SparserError>)
    requires
        query.wf(),
    ensures
        forall|s: Seq<u8>| #[trigger] final(parser).verdict(s) == old(parser).verdict(s),
        ({
            let recs = split_records(sample@, delimiter);
            let qdv = query.queries.deep_view();
            let regions = flat_filters(qdv);
            let sources = flat_sources(qdv);
            let nsub = if regions.len() <= 32 {
                regions.len() as int
            } else {
                32
            };
            let n = if recs.len() <= 1024 {
                recs.len() as int
            } else {
                1024
            };
            match res {
                Err(e) => {
                    ||| (e == SparserError::InputValidation && qdv.len() == 0)
                    ||| (e == SparserError::KernelUnsupported && qdv.len() > 0 && exists|i: int|
                        0 <= i < nsub && !valid_width((#[trigger] regions[i]).len()))
                    ||| (e == SparserError::InsufficientSamples && qdv.len() > 0 && (forall|i: int|
                        0 <= i < nsub ==> valid_width((#[trigger] regions[i]).len()))
                        && recs.len() == 0)
                },
                Ok((sch, tm)) => {
                    &&& qdv.len() > 0
                    &&& (forall|i: int| 0 <= i < nsub ==> valid_width((#[trigger] regions[i]).len()))
                    &&& recs.len() >= 1
                    &&& valid_schedule(sch.indices@, nsub, sources)
                    &&& sch.filters.deep_view() == Seq::new(
                        sch.indices@.len(),
                        |t: int| regions[sch.indices@[t] as int],
                    )
                    &&& sch.num_records == n
                    &&& sch.best_cost == sched_cost(
                        regions,
                        sample_mask_views(recs, regions, nsub, n),
                        n,
                        sch.parse_cost as int,
                        sch.indices@,
                    )
                    &&& forall|s: Seq<usize>|
                        #![trigger valid_schedule(s, nsub, sources)]
                        valid_schedule(s, nsub, sources) ==> sch.best_cost <= sched_cost(
                            regions,
                            sample_mask_views(recs, regions, nsub, n),
                            n,
                            sch.parse_cost as int,
                            s,
                        )
                },
            }
        }),
{
    let t_e2e = time_start();
    let ghost qdv = query.queries.deep_view();
    if query.queries.len() == 0 {
        return Err(SparserError::InputValidation);
    }
    let preds = copy_byte_vecs(&query.queries);
    proof {
        assert(preds.deep_view() == qdv);
        assert(qdv.len() == query.queries@.len());
        assert(preds@.len() == preds.deep_view().len());
        assert forall|i: int| 0 <= i < preds@.len() implies #[trigger] preds@[i]@.len() >= 1 by {
            assert(1 <= query.queries@[i]@.len());
            assert(qdv[i] =~= query.queries@[i]@);
            assert(preds.deep_view()[i] =~= preds@[i]@);
        }
    }
    let table = decompose(preds);
    let ghost regions = table.region.deep_view();
    let ghost sources = table.sources@;
    proof {
        assert(regions == flat_filters(qdv));
        assert(sources == flat_sources(qdv));
        assert(query.queries@.len() == query.queries.len());
        crate::decompose_ascii_rawfilters::lemma_flat_sound(qdv);
    }
    let nsub = if table.region.len() > MAX_SUBSTRINGS {
        MAX_SUBSTRINGS
    } else {
        table.region.len()
    };
    let mut i: usize = 0;
    while i < nsub
        invariant
            i <= nsub,
            regions == table.region.deep_view(),
            qdv == query.queries.deep_view(),
            qdv.len() > 0,
            regions == flat_filters(qdv),
            nsub == (if regions.len() <= 32 {
                regions.len() as int
            } else {
                32
            }),
            forall|t: int| 0 <= t < i ==> valid_width((#[trigger] regions[t]).len()),
        decreases nsub - i,
    {
        let w = table.region[i].len();
        proof {
            assert(regions[i as int] == table.region@[i as int]@);
        }
        if !(w == 1 || w == 2 || w == 4) {
            return Err(SparserError::KernelUnsupported);
        }
        i = i + 1;
    }
    let t_sampling = time_start();
    let out = match sample_selectivity(sample, &table, delimiter, parser) {
        Ok(o) => o,
        Err(_) => {
            return Err(SparserError::InsufficientSamples);
        },
    };
    let sampling_total = time_stop(t_sampling);
    let ghost recs = split_records(sample@, delimiter);
    let ghost views = mask_views(out.masks@);
    let mut sd = search_data {
        num_records: out.num_records as u64,
        passthrough_masks: out.masks,
        full_parse_cost: out.parse_cost,
        best_cost: u128::MAX,
        best_schedule: Vec::new(),
        schedule_len: 0,
        joint: Bitmap::new(),
        skipped: 0,
        processed: 0,
        total_cycles: 0,
    };
    proof {
        assert(sd_inv(sd, regions, sources));
    }
    let t_search = time_start();
    search_best(&table, &mut sd);
    let searching_total = time_stop(t_search);
    let mut filters: Vec<Vec<u8>> = Vec::new();
    let mut indices: Vec<usize> = Vec::new();
    let ghost best = sd.best_schedule@;
    let mut t: usize = 0;
    while t < sd.schedule_len
        invariant
            t <= sd.schedule_len,
            sd.schedule_len == best.len(),
            best == sd.best_schedule@,
            regions == table.region.deep_view(),
            forall|a: int| 0 <= a < best.len() ==> (#[trigger] best[a] as int) < regions.len(),
            indices@ == best.take(t as int),
            filters@.len() == t,
            forall|a: int|
                0 <= a < t ==> #[trigger] filters.deep_view()[a] == regions[best[a] as int],
        decreases sd.schedule_len - t,
    {
        let idx = sd.best_schedule[t];
        indices.push(idx);
        let ghost prevd = filters.deep_view();
        let ghost prev = filters@;
        let f = copy_bytes(&table.region[idx]);
        filters.push(f);
        proof {
            assert(indices@ =~= best.take(t + 1));
            assert(regions[idx as int] == table.region@[idx as int]@);
            assert forall|a: int| 0 <= a < t + 1 implies #[trigger] filters.deep_view()[a]
                == regions[best[a] as int] by {
                if a < t {
                    assert(filters@[a] == prev[a]);
                    assert(filters.deep_view()[a] == prevd[a]);
                } else {
                    assert(filters.deep_view()[a] == filters@[a]@);
                }
            }
        }
        t = t + 1;
    }
    proof {
        assert(indices@ == best);
        assert(best.take(best.len() as int) =~= best);
        assert(filters.deep_view() =~= Seq::new(best.len(), |a: int| regions[best[a] as int]));
    }
    let sch = Schedule {
        filters,
        indices,
        best_cost: sd.best_cost,
        num_records: sd.num_records,
        parse_cost: sd.full_parse_cost,
    };
    let cycles_per_schedule_avg = if sd.processed > 0 {
        sd.total_cycles / sd.processed
    } else {
        0
    };
    let tm = calibrate_timing {
        sampling_total,
        searching_total,
        grepping_total: out.grep_time,
        cycles_per_schedule_avg,
        cycles_per_parse_avg: sd.full_parse_cost,
        processed: sd.processed,
        skipped: sd.skipped,
        total: time_stop(t_e2e),
    };
    Ok((sch, tm))
}

/// Filter conservativity: every record the executor emits passes every
/// raw filter of the chosen schedule.  `sparser_search` returns exactly
/// the records picked by `emit_pred`.
pub proof fn lemma_filter_conservativity<P: RecordParser>(
    recs: Seq<Seq<u8>>,
    filters: Seq<Seq<u8>>,
    p: P,
)
    ensures
        forall|t: int|
            0 <= t < recs.filter(emit_pred(p, filters)).len() ==> passes_filters(
                #[trigger] recs.filter(emit_pred(p, filters))[t],
                filters,
            ),
{
    assert forall|t: int| 0 <= t < recs.filter(emit_pred(p, filters)).len() implies passes_filters(
        #[trigger] recs.filter(emit_pred(p, filters))[t],
        filters,
    ) by {
        recs.lemma_filter_pred(emit_pred(p, filters), t);
    }
}

/// Callback authority: every record the executor emits was accepted by
/// the parser callback.  `sparser_search` returns exactly the records
/// picked by `emit_pred`.
pub proof fn lemma_callback_authority<P: RecordParser>(
    recs: Seq<Seq<u8>>,
    filters: Seq<Seq<u8>>,
    p: P,
)
    ensures
        forall|t: int|
            0 <= t < recs.filter(emit_pred(p, filters)).len() ==> p.verdict(
                #[trigger] recs.filter(emit_pred(p, filters))[t],
            ) == ParserVerdict::Accept,
{
    assert forall|t: int| 0 <= t < recs.filter(emit_pred(p, filters)).len() implies p.verdict(
        #[trigger] recs.filter(emit_pred(p, filters))[t],
    ) == ParserVerdict::Accept by {
        recs.lemma_filter_pred(emit_pred(p, filters), t);
    }
}

} // verus!
