//! Finding measurement files among the entries of a dataset tree, and
//! ordering them by the index that their directory names carry.
use crate::index::{index_of_name, parse_index};
use vstd::prelude::*;

verus! {

/// One entry of a walked directory tree.
#[derive(Debug, PartialEq, Eq)]
pub struct Entry {
    /// The entry's full path.
    pub path: String,
    /// The last segment of the path.
    pub name: String,
    /// The name of the directory that holds the entry; empty where there is none.
    pub parent: String,
}

/// A measurement file with the index read from its directory's name.
#[derive(Debug, PartialEq, Eq)]
pub struct IndexedMeasurement {
    pub index: i32,
    pub path: String,
}

/// A measurement file whose directory name carries no index.
#[derive(Debug, PartialEq, Eq)]
pub struct IndexError {
    /// The directory name that could not be read.
    pub dir: String,
    /// The measurement file inside it.
    pub path: String,
}

/// The file names that mark a measurement file.
pub open spec fn is_measurement_name(name: Seq<char>) -> bool {
    name.len() >= "measurement"@.len() && name.subrange(0, "measurement"@.len() as int)
        == "measurement"@
}

/// The measurements among `es`, in the order of `es`, or the first
/// measurement file whose directory carries no index.
pub open spec fn discovered(es: Seq<Entry>) -> Result<Seq<IndexedMeasurement>, IndexError>
    decreases es.len(),
{
    if es.len() == 0 {
        Ok(Seq::empty())
    } else {
        match discovered(es.drop_last()) {
            Err(e) => Err(e),
            Ok(found) => {
                let e = es.last();
                if !is_measurement_name(e.name@) {
                    Ok(found)
                } else {
                    match index_of_name(e.parent@) {
                        None => Err(IndexError { dir: e.parent, path: e.path }),
                        Some(i) => Ok(found.push(IndexedMeasurement { index: i as i32, path: e.path })),
                    }
                }
            },
        }
    }
}

/// The measurements of `s` with index `k`, in the order of `s`.
pub open spec fn with_index(s: Seq<IndexedMeasurement>, k: i32) -> Seq<IndexedMeasurement>
    decreases s.len(),
{
    if s.len() == 0 {
        Seq::empty()
    } else if s.last().index == k {
        with_index(s.drop_last(), k).push(s.last())
    } else {
        with_index(s.drop_last(), k)
    }
}

pub open spec fn sorted_by_index(s: Seq<IndexedMeasurement>) -> bool {
    forall|i: int, j: int| 0 <= i < j < s.len() ==> s[i].index <= s[j].index
}

/// `r` is `s` sorted by index, with measurements of equal index in the order of `s`.
pub open spec fn stably_sorted(r: Seq<IndexedMeasurement>, s: Seq<IndexedMeasurement>) -> bool {
    &&& sorted_by_index(r)
    &&& forall|k: i32| #[trigger] with_index(r, k) == with_index(s, k)
}

proof fn lemma_with_index_push(s: Seq<IndexedMeasurement>, m: IndexedMeasurement, k: i32)
    ensures
        with_index(s.push(m), k) == if m.index == k {
            with_index(s, k).push(m)
        } else {
            with_index(s, k)
        },
{
    assert(s.push(m).drop_last() =~= s);
}

proof fn lemma_with_index_add(a: Seq<IndexedMeasurement>, b: Seq<IndexedMeasurement>, k: i32)
    ensures
        with_index(a + b, k) == with_index(a, k) + with_index(b, k),
    decreases b.len(),
{
    if b.len() == 0 {
        assert(a + b =~= a);
        assert(with_index(a, k) + with_index(b, k) =~= with_index(a, k));
    } else {
        lemma_with_index_add(a, b.drop_last(), k);
        assert((a + b).drop_last() =~= a + b.drop_last());
        if b.last().index == k {
            assert(with_index(a, k) + with_index(b, k) =~= (with_index(a, k) + with_index(
                b.drop_last(),
                k,
            )).push(b.last()));
        }
    }
}

proof fn lemma_with_index_absent(s: Seq<IndexedMeasurement>, k: i32)
    requires
        forall|j: int| 0 <= j < s.len() ==> #[trigger] s[j].index != k,
    ensures
        with_index(s, k) == Seq::<IndexedMeasurement>::empty(),
    decreases s.len(),
{
    if s.len() > 0 {
        lemma_with_index_absent(s.drop_last(), k);
    }
}

proof fn lemma_discovered_error_stays(es: Seq<Entry>, i: int)
    requires
        0 <= i <= es.len(),
        discovered(es.subrange(0, i)) is Err,
    ensures
        discovered(es) == discovered(es.subrange(0, i)),
    decreases es.len(),
{
    if i == es.len() {
        assert(es.subrange(0, i) =~= es);
    } else {
        assert(es.drop_last().subrange(0, i) =~= es.subrange(0, i));
        lemma_discovered_error_stays(es.drop_last(), i);
    }
}

/// Law: an entry whose name does not mark a measurement file, wherever it
/// stands among the entries, changes neither the measurements found nor the
/// error reported.
pub proof fn lemma_other_entries_ignored(es: Seq<Entry>, i: int, e: Entry)
    requires
        0 <= i <= es.len(),
        !is_measurement_name(e.name@),
    ensures
        discovered(es.insert(i, e)) == discovered(es),
    decreases es.len(),
{
    if i == es.len() {
        assert(es.insert(i, e).drop_last() =~= es);
    } else {
        assert(es.insert(i, e).drop_last() =~= es.drop_last().insert(i, e));
        assert(es.insert(i, e).last() == es.last());
        lemma_other_entries_ignored(es.drop_last(), i, e);
    }
}

/// Whether a file name marks a measurement file.
pub fn is_measurement(name: &str) -> (r: bool)
    ensures
        r == is_measurement_name(name@),
{
    let prefix = "measurement";
    proof {
        reveal_strlit("measurement");
    }
    let n = name.unicode_len();
    let m = prefix.unicode_len();
    if n < m {
        return false;
    }
    let mut i: usize = 0;
    while i < m
        invariant
            n == name@.len(),
            m == prefix@.len() <= n,
            prefix@ == "measurement"@,
            i <= m,
            name@.subrange(0, i as int) =~= prefix@.subrange(0, i as int),
        decreases m - i,
    {
        if name.get_char(i) != prefix.get_char(i) {
            assert(name@.subrange(0, m as int)[i as int] != prefix@[i as int]);
            return false;
        }
        i = i + 1;
    }
    assert(prefix@.subrange(0, m as int) =~= prefix@);
    true
}

/// Inserts `m` after every measurement of lower or equal index.
fn insert_sorted(v: &mut Vec<IndexedMeasurement>, m: IndexedMeasurement)
    requires
        sorted_by_index(old(v)@),
    ensures
        sorted_by_index(final(v)@),
        forall|k: i32|
            #[trigger] with_index(final(v)@, k) == if m.index == k {
                with_index(old(v)@, k).push(m)
            } else {
                with_index(old(v)@, k)
            },
{
    let mut p: usize = v.len();
    while p > 0 && v[p - 1].index > m.index
        invariant
            p <= v@.len(),
            forall|j: int| p <= j < v@.len() ==> #[trigger] v@[j].index > m.index,
        decreases p,
    {
        p = p - 1;
    }
    let ghost o = v@;
    v.insert(p, m);
    proof {
        let a = o.subrange(0, p as int);
        let b = o.subrange(p as int, o.len() as int);
        assert(o =~= a + b);
        assert(v@ =~= a + seq![m] + b);
        assert forall|j: int| 0 <= j < b.len() implies #[trigger] b[j].index > m.index by {
            assert(b[j] == o[p + j]);
        }
        assert forall|k: i32|
            #[trigger] with_index(v@, k) == if m.index == k {
                with_index(o, k).push(m)
            } else {
                with_index(o, k)
            } by {
            lemma_with_index_add(a, b, k);
            lemma_with_index_add(a + seq![m], b, k);
            lemma_with_index_add(a, seq![m], k);
            assert(seq![m] =~= Seq::<IndexedMeasurement>::empty().push(m));
            lemma_with_index_push(Seq::<IndexedMeasurement>::empty(), m, k);
            if m.index == k {
                lemma_with_index_absent(b, k);
                assert(with_index(b, k) + Seq::empty() =~= with_index(b, k));
                assert(with_index(a, k) + seq![m] =~= with_index(a, k).push(m));
                assert(with_index(a, k) + with_index(b, k) =~= with_index(a, k));
            } else {
                assert(with_index(a, k) + Seq::<IndexedMeasurement>::empty() =~= with_index(a, k));
            }
        }
    }
}

/// Finds the measurement files among `entries` and orders them by index;
/// measurements of equal index keep the order of `entries`.
pub fn locate(entries: &Vec<Entry>) -> (r: Result<Vec<IndexedMeasurement>, IndexError>)
    ensures
        match discovered(entries@) {
            Err(e) => r == Err::<Vec<IndexedMeasurement>, IndexError>(e),
            Ok(found) => r is Ok && stably_sorted(r->Ok_0@, found),
        },
{
    let mut out: Vec<IndexedMeasurement> = Vec::new();
    let mut i: usize = 0;
    assert(entries@.subrange(0, 0) =~= Seq::<Entry>::empty());
    while i < entries.len()
        invariant
            i <= entries@.len(),
            discovered(entries@.subrange(0, i as int)) is Ok,
            stably_sorted(out@, discovered(entries@.subrange(0, i as int))->Ok_0),
        decreases entries.len() - i,
    {
        let ghost found = discovered(entries@.subrange(0, i as int))->Ok_0;
        assert(entries@.subrange(0, i + 1).drop_last() =~= entries@.subrange(0, i as int));
        let e = &entries[i];
        if is_measurement(e.name.as_str()) {
            match parse_index(e.parent.as_str()) {
                None => {
                    proof {
                        lemma_discovered_error_stays(entries@, i + 1);
                    }
                    return Err(IndexError { dir: e.parent.clone(), path: e.path.clone() });
                },
                Some(k) => {
                    let m = IndexedMeasurement { index: k, path: e.path.clone() };
                    insert_sorted(&mut out, m);
                    proof {
                        assert forall|j: i32| #[trigger]
                            with_index(out@, j) == with_index(found.push(m), j) by {
                            lemma_with_index_push(found, m, j);
                        }
                    }
                },
            }
        }
        i = i + 1;
    }
    assert(entries@.subrange(0, i as int) =~= entries@);
    Ok(out)
}

} // verus!
