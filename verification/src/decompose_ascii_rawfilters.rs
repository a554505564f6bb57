//! Raw-filter decomposition.
//!
//! Each user predicate is split into fixed-width substrings — the raw
//! filters — that the substring kernels can search for cheaply.  A
//! predicate of at most four bytes is emitted as one raw filter; a longer
//! predicate is emitted as the contiguous sequence of its sliding four-byte
//! substrings.  Every raw filter is annotated with the index of the
//! predicate it was extracted from, so that the scheduler can refuse to
//! combine two filters of one predicate.

use vstd::prelude::*;
use crate::sparser_kernels::{occurs, occurs_at};

verus! {

/// Raw-filter width: the widest substring the kernels scan for.
pub const REGSZ: usize = 4;

/// The raw filters extracted from one predicate: the predicate itself if
/// it is short, its sliding `REGSZ`-byte substrings otherwise.
pub open spec fn filters_of(p: Seq<u8>) -> Seq<Seq<u8>> {
    if p.len() <= 4 {
        seq![p]
    } else {
        Seq::new((p.len() - 3) as nat, |t: int| p.subrange(t, t + 4))
    }
}

/// All raw filters of a predicate list, in emission order.
pub open spec fn flat_filters(preds: Seq<Seq<u8>>) -> Seq<Seq<u8>>
    decreases preds.len(),
{
    if preds.len() == 0 {
        Seq::empty()
    } else {
        flat_filters(preds.drop_last()) + filters_of(preds.last())
    }
}

/// The source-predicate index of each raw filter, parallel to
/// `flat_filters`.
pub open spec fn flat_sources(preds: Seq<Seq<u8>>) -> Seq<usize>
    decreases preds.len(),
{
    if preds.len() == 0 {
        Seq::empty()
    } else {
        flat_sources(preds.drop_last()) + Seq::new(
            filters_of(preds.last()).len(),
            |t: int| (preds.len() - 1) as usize,
        )
    }
}

/// Raw-filter table: the retained predicates, the filter byte strings,
/// and the parallel source indices.
pub struct ascii_rawfilters {
    /// The original predicate strings, kept for reconstruction.
    pub strings: Vec<Vec<u8>>,
    /// Source-predicate index of each raw filter.
    pub sources: Vec<usize>,
    /// The raw-filter byte strings.
    pub region: Vec<Vec<u8>>,
    /// Number of raw filters; equals the length of `region` and `sources`.
    pub num_strings: usize,
}

impl ascii_rawfilters {
    /// The table is exactly the decomposition of its retained predicates.
    pub open spec fn wf(&self) -> bool {
        &&& self.region.deep_view() == flat_filters(self.strings.deep_view())
        &&& self.sources@ == flat_sources(self.strings.deep_view())
        &&& self.num_strings == self.region@.len()
    }
}

/// Copy a byte string.
pub fn copy_bytes(src: &Vec<u8>) -> (r: Vec<u8>)
    ensures
        r@ == src@,
{
    let mut r: Vec<u8> = Vec::new();
    let mut i: usize = 0;
    while i < src.len()
        invariant
            i <= src@.len(),
            r@ == src@.take(i as int),
        decreases src@.len() - i,
    {
        r.push(src[i]);
        proof {
            assert(r@ =~= src@.take(i + 1));
        }
        i = i + 1;
    }
    proof {
        assert(src@.take(src@.len() as int) =~= src@);
    }
    r
}

/// Copy `len` bytes of `src` starting at `start`.
pub fn copy_range(src: &Vec<u8>, start: usize, len: usize) -> (r: Vec<u8>)
    requires
        start + len <= src.len(),
    ensures
        r@ == src@.subrange(start as int, (start + len) as int),
{
    let mut r: Vec<u8> = Vec::new();
    let mut i: usize = 0;
    while i < len
        invariant
            i <= len,
            start + len <= src.len(),
            r@.len() == i,
            forall|u: int| 0 <= u < i ==> r@[u] == src@[start + u],
        decreases len - i,
    {
        r.push(src[start + i]);
        i = i + 1;
    }
    proof {
        assert(r@ =~= src@.subrange(start as int, (start + len) as int));
    }
    r
}

/// Decompose the predicates into a raw-filter table.  Filters appear in
/// emission order: for each predicate in turn, either the predicate itself
/// (when at most `REGSZ` bytes) or its sliding `REGSZ`-byte substrings.
pub fn decompose(predicates: Vec<Vec<u8>>) -> (r: ascii_rawfilters)
    requires
        forall|i: int| 0 <= i < predicates@.len() ==> #[trigger] predicates@[i]@.len() >= 1,
    ensures
        r.wf(),
        r.strings.deep_view() == predicates.deep_view(),
{
    let ghost pdv = predicates.deep_view();
    let mut sources: Vec<usize> = Vec::new();
    let mut region: Vec<Vec<u8>> = Vec::new();
    let mut j: usize = 0;
    while j < predicates.len()
        invariant
            j <= predicates@.len(),
            pdv == predicates.deep_view(),
            forall|i: int| 0 <= i < predicates@.len() ==> #[trigger] predicates@[i]@.len() >= 1,
            region.deep_view() == flat_filters(pdv.take(j as int)),
            sources@ == flat_sources(pdv.take(j as int)),
        decreases predicates@.len() - j,
    {
        let ghost base_f = region.deep_view();
        let ghost base_s = sources@;
        let ghost p = pdv[j as int];
        proof {
            assert(p == predicates@[j as int]@);
        }
        let plen = predicates[j].len();
        if plen <= REGSZ {
            let f = copy_bytes(&predicates[j]);
            region.push(f);
            sources.push(j);
            proof {
                assert(filters_of(p) == seq![p]);
                assert(region.deep_view() =~~= base_f + filters_of(p));
                assert(sources@ =~= base_s + Seq::new(filters_of(p).len(), |t: int| j));
            }
        } else {
            let ghost fp = filters_of(p);
            proof {
                assert(base_f + fp.take(0) =~= base_f);
            }
            let mut t: usize = 0;
            while t <= plen - REGSZ
                invariant
                    plen == p.len(),
                    plen > REGSZ,
                    REGSZ == 4,
                    j < predicates@.len(),
                    pdv == predicates.deep_view(),
                    p == predicates@[j as int]@,
                    plen == predicates@[j as int]@.len(),
                    fp == filters_of(p),
                    t <= plen - 3,
                    region.deep_view() == base_f + fp.take(t as int),
                    sources@ == base_s + Seq::new(t as nat, |u: int| j),
                decreases plen - t,
            {
                let f = copy_range(&predicates[j], t, REGSZ);
                let ghost prev = region@;
                let ghost prevd = region.deep_view();
                region.push(f);
                sources.push(j);
                proof {
                    assert(f@ == fp[t as int]);
                    assert forall|i: int| 0 <= i < prevd.len() implies region.deep_view()[i]
                        == prevd[i] by {
                        assert(region@[i] == prev[i]);
                    }
                    assert(region.deep_view()[prevd.len() as int] == f@);
                    assert(fp.take(t as int + 1) =~= fp.take(t as int).push(fp[t as int]));
                    assert(region.deep_view() =~= prevd.push(f@));
                    assert(prevd.push(f@) =~= (base_f + fp.take(t as int)).push(fp[t as int]));
                    assert((base_f + fp.take(t as int)).push(fp[t as int]) =~= base_f + fp.take(
                        t as int,
                    ).push(fp[t as int]));
                    assert(region.deep_view() == base_f + fp.take(t as int + 1));
                    assert(sources@ =~= base_s + Seq::new((t + 1) as nat, |u: int| j));
                }
                t = t + 1;
            }
            proof {
                assert(t == plen - 3);
                assert(fp.take(t as int) =~= fp);
                assert(Seq::new(t as nat, |u: int| j) =~= Seq::new(fp.len(), |u: int| j));
            }
        }
        proof {
            assert(pdv.take(j + 1).drop_last() =~= pdv.take(j as int));
            assert(pdv.take(j + 1).last() == p);
            assert(flat_filters(pdv.take(j + 1)) == flat_filters(pdv.take(j as int)) + filters_of(
                p,
            ));
            assert(flat_sources(pdv.take(j + 1)) == flat_sources(pdv.take(j as int)) + Seq::new(
                filters_of(p).len(),
                |t: int| j,
            ));
        }
        j = j + 1;
    }
    proof {
        assert(pdv.take(predicates@.len() as int) =~= pdv);
    }
    let num_strings = region.len();
    ascii_rawfilters { strings: predicates, sources, region, num_strings }
}

/// Every raw filter of one predicate is a substring of that predicate.
pub proof fn lemma_filters_of_sound(p: Seq<u8>)
    ensures
        forall|t: int| 0 <= t < filters_of(p).len() ==> occurs(p, #[trigger] filters_of(p)[t]),
{
    assert forall|t: int| 0 <= t < filters_of(p).len() implies occurs(
        p,
        #[trigger] filters_of(p)[t],
    ) by {
        if p.len() <= 4 {
            assert(p.subrange(0, p.len() as int) =~= p);
            assert(occurs_at(p, filters_of(p)[t], 0));
        } else {
            assert(occurs_at(p, filters_of(p)[t], t));
        }
    }
}

/// Filters and sources have equal length, every source index points at a
/// predicate, and every raw filter is a substring of its source predicate.
pub proof fn lemma_flat_sound(preds: Seq<Seq<u8>>)
    requires
        preds.len() <= usize::MAX,
    ensures
        flat_filters(preds).len() == flat_sources(preds).len(),
        forall|i: int|
            0 <= i < flat_filters(preds).len() ==> (#[trigger] flat_sources(preds)[i]) < preds.len()
                && occurs(preds[flat_sources(preds)[i] as int], flat_filters(preds)[i]),
    decreases preds.len(),
{
    if preds.len() > 0 {
        let dl = preds.drop_last();
        let ff = flat_filters(preds);
        let fs = flat_sources(preds);
        let lf = filters_of(preds.last());
        lemma_flat_sound(dl);
        lemma_filters_of_sound(preds.last());
        assert forall|i: int| 0 <= i < ff.len() implies (#[trigger] fs[i]) < preds.len() && occurs(
            preds[fs[i] as int],
            ff[i],
        ) by {
            if i < flat_filters(dl).len() {
                assert(ff[i] == flat_filters(dl)[i]);
                assert(fs[i] == flat_sources(dl)[i]);
                assert(preds[fs[i] as int] == dl[fs[i] as int]);
            } else {
                let t = i - flat_filters(dl).len();
                assert(ff[i] == lf[t]);
                assert(fs[i] == (preds.len() - 1) as usize);
                assert(occurs(preds.last(), lf[t]));
            }
        }
    }
}

/// Decomposition soundness: in a well-formed raw-filter table, every raw
/// filter is a contiguous substring of the predicate its source index
/// names.
pub proof fn lemma_decomposition_soundness(t: &ascii_rawfilters)
    requires
        t.wf(),
    ensures
        forall|i: int|
            0 <= i < t.region@.len() ==> (#[trigger] t.sources@[i]) < t.strings@.len() && occurs(
                t.strings@[t.sources@[i] as int]@,
                t.region@[i]@,
            ),
{
    let pdv = t.strings.deep_view();
    assert(t.strings@.len() == t.strings.len());
    lemma_flat_sound(pdv);
    assert forall|i: int| 0 <= i < t.region@.len() implies (#[trigger] t.sources@[i])
        < t.strings@.len() && occurs(t.strings@[t.sources@[i] as int]@, t.region@[i]@) by {
        assert(t.region.deep_view()[i] == t.region@[i]@);
        assert(pdv[t.sources@[i] as int] == t.strings@[t.sources@[i] as int]@);
    }
}

} // verus!
