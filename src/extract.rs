//! Pulling one point per located measurement out of the measurement files'
//! contents.
use crate::document::{cbor_document, decode_document, point_estimate, point_estimate_of};
use crate::locate::{discovered, stably_sorted, with_index, Entry, IndexedMeasurement};
use vstd::prelude::*;

verus! {

/// One sample: an index and the measured time as IEEE-754 `f64` bits.
#[derive(Debug, PartialEq, Eq)]
pub struct ResultPoint {
    pub index: i32,
    pub time_bits: u64,
}

/// A measurement file whose contents are not a CBOR document.
#[derive(Debug, PartialEq, Eq)]
pub struct DecodeError {
    pub path: String,
}

/// The points that `ms` yield when `cs` holds their files' contents in the
/// same order, or the first file that does not decode. A document without a
/// point estimate yields no point.
pub open spec fn extracted(ms: Seq<IndexedMeasurement>, cs: Seq<Vec<u8>>) -> Result<
    Seq<ResultPoint>,
    DecodeError,
>
    decreases ms.len(),
{
    if ms.len() == 0 || cs.len() == 0 {
        Ok(Seq::empty())
    } else {
        match extracted(ms.drop_last(), cs.drop_last()) {
            Err(e) => Err(e),
            Ok(points) => match cbor_document(cs.last()@) {
                None => Err(DecodeError { path: ms.last().path }),
                Some(d) => match point_estimate_of(d) {
                    None => Ok(points),
                    Some(bits) => Ok(points.push(ResultPoint { index: ms.last().index, time_bits: bits })),
                },
            },
        }
    }
}

/// Every one of `cs` decodes to a document with a point estimate.
pub open spec fn all_estimated(cs: Seq<Vec<u8>>) -> bool {
    forall|i: int|
        0 <= i < cs.len() ==> match #[trigger] cbor_document(cs[i]@) {
            Some(d) => point_estimate_of(d) is Some,
            None => false,
        }
}

pub open spec fn points_sorted(p: Seq<ResultPoint>) -> bool {
    forall|i: int, j: int| 0 <= i < j < p.len() ==> p[i].index <= p[j].index
}

/// How many of `p` have index `k`.
pub open spec fn count_index(p: Seq<ResultPoint>, k: i32) -> nat
    decreases p.len(),
{
    if p.len() == 0 {
        0
    } else {
        count_index(p.drop_last(), k) + if p.last().index == k {
            1nat
        } else {
            0nat
        }
    }
}

proof fn lemma_extracted_shape(ms: Seq<IndexedMeasurement>, cs: Seq<Vec<u8>>)
    requires
        cs.len() == ms.len(),
        forall|i: int, j: int| 0 <= i < j < ms.len() ==> ms[i].index <= ms[j].index,
        extracted(ms, cs) is Ok,
    ensures
        points_sorted(extracted(ms, cs)->Ok_0),
        ms.len() > 0 ==> forall|i: int|
            0 <= i < extracted(ms, cs)->Ok_0.len() ==> #[trigger] extracted(ms, cs)->Ok_0[i].index
                <= ms.last().index,
        forall|k: i32| #[trigger]
            count_index(extracted(ms, cs)->Ok_0, k) <= with_index(ms, k).len(),
        all_estimated(cs) ==> forall|k: i32| #[trigger]
            count_index(extracted(ms, cs)->Ok_0, k) == with_index(ms, k).len(),
    decreases ms.len(),
{
    if ms.len() > 0 {
        let ms0 = ms.drop_last();
        let cs0 = cs.drop_last();
        lemma_extracted_shape(ms0, cs0);
        let p0 = extracted(ms0, cs0)->Ok_0;
        let p = extracted(ms, cs)->Ok_0;
        assert forall|i: int| 0 <= i < p0.len() implies #[trigger] p0[i].index <= ms.last().index by {
            if ms0.len() > 0 {
                assert(ms0.last().index <= ms.last().index);
            }
        }
        if all_estimated(cs) {
            assert forall|i: int| 0 <= i < cs0.len() implies match #[trigger] cbor_document(
                cs0[i]@,
            ) {
                Some(d) => point_estimate_of(d) is Some,
                None => false,
            } by {
                assert(cs0[i] == cs[i]);
            }
            assert(cbor_document(cs[cs.len() - 1]@) is Some);
        }
        let d = cbor_document(cs.last()@)->Some_0;
        assert forall|k: i32|
            #[trigger] count_index(p, k) == count_index(p0, k) + if point_estimate_of(d) is Some
                && ms.last().index == k {
                1nat
            } else {
                0nat
            } by {
            if point_estimate_of(d) is Some {
                assert(p.drop_last() =~= p0);
            } else {
                assert(p =~= p0);
            }
        }
        assert forall|k: i32|
            #[trigger] with_index(ms, k).len() == with_index(ms0, k).len() + if ms.last().index
                == k {
                1nat
            } else {
                0nat
            } by {}
        if all_estimated(cs) {
            assert(point_estimate_of(d) is Some);
        }
    }
}

/// Law: the points extracted from a located list come out sorted by index, and
/// the extraction adds no point: no index occurs among them more often than
/// among the measurements found. Where every document holds a point estimate,
/// each index occurs exactly as often as among the measurements found.
pub proof fn lemma_points_ordered(
    entries: Seq<Entry>,
    located: Seq<IndexedMeasurement>,
    contents: Seq<Vec<u8>>,
)
    requires
        discovered(entries) is Ok,
        stably_sorted(located, discovered(entries)->Ok_0),
        contents.len() == located.len(),
        extracted(located, contents) is Ok,
    ensures
        points_sorted(extracted(located, contents)->Ok_0),
        forall|k: i32| #[trigger]
            count_index(extracted(located, contents)->Ok_0, k) <= with_index(
                discovered(entries)->Ok_0,
                k,
            ).len(),
        all_estimated(contents) ==> forall|k: i32| #[trigger]
            count_index(extracted(located, contents)->Ok_0, k) == with_index(
                discovered(entries)->Ok_0,
                k,
            ).len(),
{
    lemma_extracted_shape(located, contents);
    assert forall|k: i32| #[trigger]
        with_index(located, k) == with_index(discovered(entries)->Ok_0, k) by {}
}

/// Law: a file that decodes to a document without the median point estimate
/// (one without an `estimates` key among them), wherever it stands, neither
/// ends the work nor changes the points that the other files yield.
pub proof fn lemma_unestimated_skipped(
    ms: Seq<IndexedMeasurement>,
    cs: Seq<Vec<u8>>,
    i: int,
    m: IndexedMeasurement,
    c: Vec<u8>,
)
    requires
        cs.len() == ms.len(),
        0 <= i <= ms.len(),
        cbor_document(c@) is Some,
        point_estimate_of(cbor_document(c@)->Some_0) is None,
    ensures
        extracted(ms.insert(i, m), cs.insert(i, c)) == extracted(ms, cs),
    decreases ms.len(),
{
    if i == ms.len() {
        assert(ms.insert(i, m).drop_last() =~= ms);
        assert(cs.insert(i, c).drop_last() =~= cs);
    } else {
        assert(ms.insert(i, m).drop_last() =~= ms.drop_last().insert(i, m));
        assert(cs.insert(i, c).drop_last() =~= cs.drop_last().insert(i, c));
        assert(ms.insert(i, m).last() == ms.last());
        assert(cs.insert(i, c).last() == cs.last());
        lemma_unestimated_skipped(ms.drop_last(), cs.drop_last(), i, m, c);
    }
}

/// Decodes each file's contents in order and takes its point estimate. The
/// first contents that do not decode end the work with an error; a document
/// without a point estimate is passed over.
pub fn extract(located: &Vec<IndexedMeasurement>, contents: &Vec<Vec<u8>>) -> (r: Result<
    Vec<ResultPoint>,
    DecodeError,
>)
    requires
        contents.len() == located.len(),
    ensures
        match extracted(located@, contents@) {
            Err(e) => r == Err::<Vec<ResultPoint>, DecodeError>(e),
            Ok(p) => r is Ok && r->Ok_0@ == p,
        },
{
    let mut out: Vec<ResultPoint> = Vec::new();
    let mut i: usize = 0;
    while i < located.len()
        invariant
            contents@.len() == located@.len(),
            i <= located@.len(),
            extracted(located@.subrange(0, i as int), contents@.subrange(0, i as int)) == Ok::<
                Seq<ResultPoint>,
                DecodeError,
            >(out@),
        decreases located.len() - i,
    {
        let ghost ms = located@.subrange(0, i + 1);
        let ghost cs = contents@.subrange(0, i + 1);
        assert(ms.drop_last() =~= located@.subrange(0, i as int));
        assert(cs.drop_last() =~= contents@.subrange(0, i as int));
        match decode_document(contents[i].as_slice()) {
            Err(_) => {
                proof {
                    lemma_extracted_error_stays(located@, contents@, i + 1);
                }
                return Err(DecodeError { path: located[i].path.clone() });
            },
            Ok(d) => {
                if let Some(bits) = point_estimate(&d) {
                    out.push(ResultPoint { index: located[i].index, time_bits: bits });
                }
            },
        }
        i = i + 1;
    }
    assert(located@.subrange(0, i as int) =~= located@);
    assert(contents@.subrange(0, i as int) =~= contents@);
    Ok(out)
}

proof fn lemma_extracted_error_stays(ms: Seq<IndexedMeasurement>, cs: Seq<Vec<u8>>, i: int)
    requires
        0 < i <= ms.len(),
        cs.len() == ms.len(),
        extracted(ms.subrange(0, i), cs.subrange(0, i)) is Err,
    ensures
        extracted(ms, cs) == extracted(ms.subrange(0, i), cs.subrange(0, i)),
    decreases ms.len(),
{
    if i == ms.len() {
        assert(ms.subrange(0, i) =~= ms);
        assert(cs.subrange(0, i) =~= cs);
    } else {
        assert(ms.drop_last().subrange(0, i) =~= ms.subrange(0, i));
        assert(cs.drop_last().subrange(0, i) =~= cs.subrange(0, i));
        lemma_extracted_error_stays(ms.drop_last(), cs.drop_last(), i);
    }
}

} // verus!
