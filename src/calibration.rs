//! The calibration table: a CSV document whose header names a type column
//! (`vm_type`) and reference columns (`idle` for 0 percent, `usage_N` for N
//! percent), one row per instance type.
use vstd::prelude::*;
use vstd::string::StrSliceExecFns;
use crate::decimal::{MAX_MILLIWATTS, all_digits, digits_value, field_milli, is_digits, parse_milli, read_digits};
use crate::model::{points_valid, RefPoint};

verus! {

/// `csv::Error`, the csv crate's read failure, carried back by the reader
/// below; only its presence is looked at.
#[verifier::external_type_specification]
#[verifier::external_body]
pub struct ExCsvError(csv::Error);

/// What csv's `Reader::records` makes of a document: the records read before the
/// first error, each as the text of its fields, and whether reading stopped
/// at an error.
pub uninterp spec fn csv_records_of(data: Seq<u8>) -> (Seq<Seq<Seq<char>>>, bool);

pub open spec fn record_view(r: Vec<String>) -> Seq<Seq<char>> {
    r@.map_values(|f: String| f@)
}

pub open spec fn records_view(v: Seq<Vec<String>>) -> Seq<Seq<Seq<char>>> {
    v.map_values(|r: Vec<String>| record_view(r))
}

/// Relies on `csv::ReaderBuilder::has_headers(false)` and `Reader::records`
/// of the csv crate: every record, the header line included, is read as the
/// text of its fields, until the first error; the outcome depends on the
/// bytes alone.
#[verifier::external_body]
fn read_records(data: &[u8]) -> (r: (Vec<Vec<String>>, Option<csv::Error>))
    ensures
        (records_view(r.0@), r.1 is Some) == csv_records_of(data@),
{
    let mut rdr = csv::ReaderBuilder::new().has_headers(false).from_reader(data);
    let mut rows: Vec<Vec<String>> = Vec::new();
    for rec in rdr.records() {
        match rec {
            Ok(rec) => rows.push(rec.iter().map(|f| f.to_string()).collect()),
            Err(e) => return (rows, Some(e)),
        }
    }
    (rows, None)
}

/// One instance type's calibration: reference points by increasing
/// utilisation.
#[derive(Debug)]
pub struct CalibrationRow {
    pub type_id: String,
    pub points: Vec<RefPoint>,
}

impl CalibrationRow {
    pub open spec fn wf(&self) -> bool {
        points_valid(self.points@)
    }
}

/// Why the calibration table could not give a row.
#[derive(Clone, Copy, Debug, PartialEq, Eq, Structural)]
pub enum LoadError {
    /// No row holds the requested type.
    NotFound,
    /// The header has no type column, names one utilisation twice, or
    /// names one above 100 percent.
    MalformedHeader,
    /// The record at this index (the header is record 0) could not be read,
    /// lacks a column, or holds a power figure that is not a decimal number.
    MalformedRow { record: usize },
}

pub open spec fn type_column_name() -> Seq<char> {
    seq!['v', 'm', '_', 't', 'y', 'p', 'e']
}

pub open spec fn idle_column_name() -> Seq<char> {
    seq!['i', 'd', 'l', 'e']
}

pub open spec fn usage_prefix() -> Seq<char> {
    seq!['u', 's', 'a', 'g', 'e', '_']
}

/// The utilisation percent that a header name stands for: `idle` is 0,
/// `usage_N` is N; other names are not reference columns.
pub open spec fn column_percent(name: Seq<char>) -> Option<nat> {
    if name == idle_column_name() {
        Some(0)
    } else if name.len() > 6 && name.take(6) == usage_prefix() && is_digits(name.skip(6)) {
        Some(digits_value(name.skip(6)))
    } else {
        None
    }
}

/// The first column called `name`.
pub open spec fn find_column(h: Seq<Seq<char>>, name: Seq<char>) -> Option<int>
    decreases h.len(),
{
    if h.len() == 0 {
        None
    } else {
        match find_column(h.drop_last(), name) {
            Some(j) => Some(j),
            None => if h.last() == name {
                Some(h.len() - 1)
            } else {
                None
            },
        }
    }
}

/// The reference columns, in order, each with its percent.
pub open spec fn ref_columns(h: Seq<Seq<char>>) -> Seq<(int, nat)>
    decreases h.len(),
{
    if h.len() == 0 {
        seq![]
    } else {
        match column_percent(h.last()) {
            Some(p) => ref_columns(h.drop_last()).push((h.len() - 1, p)),
            None => ref_columns(h.drop_last()),
        }
    }
}

pub open spec fn percents_ok(c: Seq<(int, nat)>) -> bool {
    &&& forall|k: int| 0 <= k < c.len() ==> (#[trigger] c[k]).1 <= 100
    &&& forall|k: int, l: int| 0 <= k < l < c.len() ==> (#[trigger] c[k]).1 != (#[trigger] c[l]).1
}

pub open spec fn header_ok(h: Seq<Seq<char>>) -> bool {
    find_column(h, type_column_name()) is Some && percents_ok(ref_columns(h))
}

/// The reference points a record holds under the given columns, if each
/// column is present and holds a power figure.
pub open spec fn row_points(r: Seq<Seq<char>>, cols: Seq<(int, nat)>) -> Option<Seq<RefPoint>>
    decreases cols.len(),
{
    if cols.len() == 0 {
        Some(seq![])
    } else {
        match row_points(r, cols.drop_last()) {
            None => None,
            Some(ps) => {
                let c = cols.last();
                if 0 <= c.0 < r.len() {
                    match field_milli(r[c.0]) {
                        Some(w) => Some(ps.push(RefPoint { percent: c.1 as u64, milliwatts: w as u64 })),
                        None => None,
                    }
                } else {
                    None
                }
            },
        }
    }
}

/// The last point of `ps` at utilisation `p`.
pub open spec fn point_at(ps: Seq<RefPoint>, p: nat) -> Option<RefPoint>
    decreases ps.len(),
{
    if ps.len() == 0 {
        None
    } else if ps.last().percent == p {
        Some(ps.last())
    } else {
        point_at(ps.drop_last(), p)
    }
}

/// The points of `ps` below `limit` percent, one per utilisation, by
/// increasing utilisation.
pub open spec fn points_below(ps: Seq<RefPoint>, limit: nat) -> Seq<RefPoint>
    decreases limit,
{
    if limit == 0 {
        seq![]
    } else {
        match point_at(ps, (limit - 1) as nat) {
            Some(q) => points_below(ps, (limit - 1) as nat).push(q),
            None => points_below(ps, (limit - 1) as nat),
        }
    }
}

/// The points (utilisations of at most 100 percent) listed by increasing
/// utilisation.
pub open spec fn by_percent(ps: Seq<RefPoint>) -> Seq<RefPoint> {
    points_below(ps, 101)
}

/// A record is readable under the header: it has the type column and every
/// reference column holds a power figure.
pub open spec fn row_ok(r: Seq<Seq<char>>, tc: int, cols: Seq<(int, nat)>) -> bool {
    0 <= tc < r.len() && row_points(r, cols) is Some
}

/// The scan stops at a record that is unreadable or holds the key.
pub open spec fn stops_at(r: Seq<Seq<char>>, tc: int, cols: Seq<(int, nat)>, key: Seq<char>) -> bool {
    !row_ok(r, tc, cols) || r[tc] == key
}

/// Index of the first record of `d` at which the scan stops.
pub open spec fn first_stop(d: Seq<Seq<Seq<char>>>, tc: int, cols: Seq<(int, nat)>, key: Seq<char>) -> Option<int>
    decreases d.len(),
{
    if d.len() == 0 {
        None
    } else {
        match first_stop(d.drop_last(), tc, cols, key) {
            Some(i) => Some(i),
            None => if stops_at(d.last(), tc, cols, key) {
                Some(d.len() - 1)
            } else {
                None
            },
        }
    }
}

proof fn lemma_first_stop(d: Seq<Seq<Seq<char>>>, tc: int, cols: Seq<(int, nat)>, key: Seq<char>)
    ensures
        first_stop(d, tc, cols, key) matches Some(i) ==> 0 <= i < d.len() && stops_at(
            d[i],
            tc,
            cols,
            key,
        ),
    decreases d.len(),
{
    if d.len() > 0 {
        lemma_first_stop(d.drop_last(), tc, cols, key);
    }
}

proof fn lemma_first_stop_at(d: Seq<Seq<Seq<char>>>, tc: int, cols: Seq<(int, nat)>, key: Seq<char>, k: int)
    requires
        0 <= k <= d.len(),
        forall|i: int| 0 <= i < k ==> !stops_at(#[trigger] d[i], tc, cols, key),
        k < d.len() ==> stops_at(d[k], tc, cols, key),
    ensures
        first_stop(d, tc, cols, key) == (if k < d.len() {
            Some(k)
        } else {
            None::<int>
        }),
    decreases d.len(),
{
    if d.len() > 0 {
        let t = d.drop_last();
        assert(forall|i: int| 0 <= i < t.len() ==> #[trigger] t[i] == d[i]);
        if k < d.len() - 1 {
            lemma_first_stop_at(t, tc, cols, key, k);
        } else {
            lemma_first_stop_at(t, tc, cols, key, t.len() as int);
            assert(d.last() == d[d.len() - 1]);
        }
    }
}

/// The row that the table selects for `key`, as (type, points): records
/// are scanned in order after the header; the first that cannot be read is
/// an error, the first whose type is `key` is the answer, its points listed
/// by increasing utilisation whatever the order of the columns. `failed` says that
/// reading stopped early at an unreadable record.
pub open spec fn select_row(rows: Seq<Seq<Seq<char>>>, failed: bool, key: Seq<char>) -> Result<(Seq<char>, Seq<RefPoint>), LoadError> {
    if rows.len() == 0 {
        if failed {
            Err(LoadError::MalformedRow { record: 0 })
        } else {
            Err(LoadError::MalformedHeader)
        }
    } else if !header_ok(rows[0]) {
        Err(LoadError::MalformedHeader)
    } else {
        let tc = find_column(rows[0], type_column_name()).unwrap();
        let cols = ref_columns(rows[0]);
        match first_stop(rows.skip(1), tc, cols, key) {
            Some(i) => if row_ok(rows[i + 1], tc, cols) {
                Ok((key, by_percent(row_points(rows[i + 1], cols).unwrap())))
            } else {
                Err(LoadError::MalformedRow { record: (i + 1) as usize })
            },
            None => if failed {
                Err(LoadError::MalformedRow { record: rows.len() as usize })
            } else {
                Err(LoadError::NotFound)
            },
        }
    }
}

pub open spec fn row_result_view(r: Result<CalibrationRow, LoadError>) -> Result<(Seq<char>, Seq<RefPoint>), LoadError> {
    match r {
        Ok(row) => Ok((row.type_id@, row.points@)),
        Err(e) => Err(e),
    }
}

fn text_eq(a: &str, b: &str) -> (r: bool)
    ensures
        r == (a@ == b@),
{
    let n = a.unicode_len();
    if n != b.unicode_len() {
        return false;
    }
    let mut i: usize = 0;
    while i < n
        invariant
            n == a@.len() == b@.len(),
            i <= n,
            a@.take(i as int) == b@.take(i as int),
        decreases n - i,
    {
        if a.get_char(i) != b.get_char(i) {
            return false;
        }
        assert(a@.take(i + 1) =~= a@.take(i as int).push(a@[i as int]));
        assert(b@.take(i + 1) =~= b@.take(i as int).push(b@[i as int]));
        i = i + 1;
    }
    assert(a@.take(n as int) =~= a@);
    assert(b@.take(n as int) =~= b@);
    true
}

/// Reads a header name as a reference column: `Ok(Some(p))` for `idle` or
/// `usage_p` with `p <= 100`, `Ok(None)` for other names, `Err(())` for a
/// `usage_N` with `N > 100`.
fn read_column_name(name: &str) -> (r: Result<Option<u64>, ()>)
    ensures
        match column_percent(name@) {
            Some(p) => if p <= 100 {
                r == Ok::<Option<u64>, ()>(Some(p as u64))
            } else {
                r is Err
            },
            None => r == Ok::<Option<u64>, ()>(None),
        },
{
    proof {
        reveal_strlit("idle");
        reveal_strlit("usage_");
    }
    assert("idle"@ =~= idle_column_name());
    assert("usage_"@ =~= usage_prefix());
    if text_eq(name, "idle") {
        return Ok(Some(0));
    }
    let n = name.unicode_len();
    if n <= 6 {
        return Ok(None);
    }
    let head = name.substring_char(0, 6);
    assert(name@.subrange(0, 6) =~= name@.take(6));
    assert(name@.subrange(6, n as int) =~= name@.skip(6));
    if !text_eq(head, "usage_") {
        return Ok(None);
    }
    if !all_digits(name, 6, n) {
        return Ok(None);
    }
    match read_digits(name, 6, n, 100) {
        Some(p) => Ok(Some(p)),
        None => Err(()),
    }
}

/// The header's type column and reference columns (column, percent).
struct Layout {
    type_col: usize,
    cols: Vec<(usize, u64)>,
}

spec fn cols_view(c: Seq<(usize, u64)>) -> Seq<(int, nat)> {
    c.map_values(|e: (usize, u64)| (e.0 as int, e.1 as nat))
}

fn read_header(h: &Vec<String>) -> (r: Option<Layout>)
    ensures
        r is Some <==> header_ok(record_view(*h)),
        r matches Some(l) ==> find_column(record_view(*h), type_column_name()) == Some(
            l.type_col as int,
        ) && cols_view(l.cols@) == ref_columns(record_view(*h)),
{
    let ghost hv = record_view(*h);
    proof {
        reveal_strlit("vm_type");
    }
    assert("vm_type"@ =~= type_column_name());
    let n = h.len();
    let mut tc: Option<usize> = None;
    let mut cols: Vec<(usize, u64)> = Vec::new();
    let mut too_high = false;
    let ghost mut bad: int = 0;
    let mut j: usize = 0;
    while j < n
        invariant
            n == h@.len() == hv.len(),
            hv == record_view(*h),
            "vm_type"@ == type_column_name(),
            j <= n,
            match tc {
                Some(t) => find_column(hv.take(j as int), type_column_name()) == Some(t as int),
                None => find_column(hv.take(j as int), type_column_name()) is None,
            },
            forall|k: int| 0 <= k < cols@.len() ==> (#[trigger] cols@[k]).1 <= 100,
            !too_high ==> cols_view(cols@) == ref_columns(hv.take(j as int)),
            too_high ==> 0 <= bad < ref_columns(hv.take(j as int)).len() && ref_columns(
                hv.take(j as int),
            )[bad].1 > 100,
        decreases n - j,
    {
        let ghost t = hv.take(j + 1);
        assert(t.drop_last() =~= hv.take(j as int));
        assert(t.last() == h@[j as int]@);
        if tc.is_none() && text_eq(h[j].as_str(), "vm_type") {
            tc = Some(j);
        }
        match read_column_name(h[j].as_str()) {
            Ok(Some(p)) => {
                assert(cols_view(cols@.push((j, p))) =~= cols_view(cols@).push((j as int, p as nat)));
                cols.push((j, p));
            },
            Ok(None) => {},
            Err(()) => {
                if !too_high {
                    proof {
                        bad = ref_columns(t).len() - 1;
                    }
                }
                too_high = true;
            },
        }
        j = j + 1;
    }
    assert(hv.take(n as int) =~= hv);
    if too_high {
        let ghost c = ref_columns(hv);
        assert(c[bad].1 > 100);
        return None;
    }
    let type_col = match tc {
        Some(t) => t,
        None => {
            return None;
        },
    };
    let m = cols.len();
    let mut k: usize = 1;
    while k < m
        invariant
            m == cols@.len(),
            hv == record_view(*h),
            1 <= k,
            cols_view(cols@) == ref_columns(hv),
            forall|a: int, b: int|
                0 <= a < b < k && b < m ==> (#[trigger] cols@[a]).1 != (#[trigger] cols@[b]).1,
        decreases m - k,
    {
        let mut a: usize = 0;
        while a < k
            invariant
                m == cols@.len(),
                hv == record_view(*h),
                0 <= a <= k < m,
                cols_view(cols@) == ref_columns(hv),
                forall|a2: int| 0 <= a2 < a ==> (#[trigger] cols@[a2]).1 != cols@[k as int].1,
            decreases k - a,
        {
            if cols[a].1 == cols[k].1 {
                assert(cols_view(cols@)[a as int].1 == cols_view(cols@)[k as int].1);
                return None;
            }
            a = a + 1;
        }
        k = k + 1;
    }
    let ghost cv = cols_view(cols@);
    assert forall|a: int, b: int| 0 <= a < b < cv.len() implies (#[trigger] cv[a]).1 != (
    #[trigger] cv[b]).1 by {
        assert(cols@[a].1 != cols@[b].1);
    }
    assert forall|a: int| 0 <= a < cv.len() implies (#[trigger] cv[a]).1 <= 100 by {
        assert(cols@[a].1 <= 100);
    }
    Some(Layout { type_col, cols })
}

/// The reference points of record `r` under the columns `cols`.
fn record_points(r: &Vec<String>, cols: &Vec<(usize, u64)>) -> (res: Option<Vec<RefPoint>>)
    ensures
        match row_points(record_view(*r), cols_view(cols@)) {
            Some(ps) => res matches Some(v) && v@ == ps,
            None => res is None,
        },
        res matches Some(v) ==> v@.len() == cols@.len() && forall|k: int|
            0 <= k < v@.len() ==> (#[trigger] v@[k]).percent == cols@[k].1 && v@[k].milliwatts
                <= MAX_MILLIWATTS,
{
    let ghost rv = record_view(*r);
    let ghost cv = cols_view(cols@);
    let m = cols.len();
    let mut pts: Vec<RefPoint> = Vec::new();
    let mut ok = true;
    let mut k: usize = 0;
    assert(cv.take(0) =~= Seq::<(int, nat)>::empty());
    while k < m
        invariant
            m == cols@.len() == cv.len(),
            rv == record_view(*r),
            cv == cols_view(cols@),
            k <= m,
            ok ==> row_points(rv, cv.take(k as int)) == Some(pts@),
            ok ==> pts@.len() == k,
            forall|a: int|
                0 <= a < pts@.len() ==> (#[trigger] pts@[a]).percent == cols@[a].1
                    && pts@[a].milliwatts <= MAX_MILLIWATTS,
            !ok ==> row_points(rv, cv.take(k as int)) is None,
        decreases m - k,
    {
        assert(cv.take(k + 1).drop_last() =~= cv.take(k as int));
        assert(cv.take(k + 1).last() == cv[k as int]);
        if ok {
            let (c, p) = cols[k];
            if c < r.len() {
                assert(rv[c as int] == r@[c as int]@);
                match parse_milli(r[c].as_str()) {
                    Some(w) => {
                        pts.push(RefPoint { percent: p, milliwatts: w });
                    },
                    None => {
                        ok = false;
                    },
                }
            } else {
                ok = false;
            }
        }
        k = k + 1;
    }
    assert(cv.take(m as int) =~= cv);
    if ok {
        Some(pts)
    } else {
        None
    }
}

/// The point of `ps` at utilisation `p`, the last one if several.
fn find_point(ps: &Vec<RefPoint>, p: u64) -> (r: Option<RefPoint>)
    requires
        forall|i: int| 0 <= i < ps@.len() ==> (#[trigger] ps@[i]).milliwatts <= MAX_MILLIWATTS,
    ensures
        r == point_at(ps@, p as nat),
        r matches Some(q) ==> q.percent == p && q.milliwatts <= MAX_MILLIWATTS,
{
    let mut found: Option<RefPoint> = None;
    let mut i: usize = 0;
    while i < ps.len()
        invariant
            i <= ps@.len(),
            forall|j: int| 0 <= j < ps@.len() ==> (#[trigger] ps@[j]).milliwatts <= MAX_MILLIWATTS,
            found == point_at(ps@.take(i as int), p as nat),
            found matches Some(q) ==> q.percent == p && q.milliwatts <= MAX_MILLIWATTS,
        decreases ps@.len() - i,
    {
        assert(ps@.take(i + 1).drop_last() =~= ps@.take(i as int));
        assert(ps@.take(i + 1).last() == ps@[i as int]);
        if ps[i].percent == p {
            found = Some(ps[i]);
        }
        i = i + 1;
    }
    assert(ps@.take(ps@.len() as int) =~= ps@);
    found
}

/// Lists the points by increasing utilisation.
fn sort_by_percent(ps: &Vec<RefPoint>) -> (r: Vec<RefPoint>)
    requires
        forall|i: int| 0 <= i < ps@.len() ==> (#[trigger] ps@[i]).milliwatts <= MAX_MILLIWATTS,
    ensures
        r@ == by_percent(ps@),
        points_valid(r@),
{
    let mut out: Vec<RefPoint> = Vec::new();
    let mut p: u64 = 0;
    while p <= 100
        invariant
            p <= 101,
            forall|i: int| 0 <= i < ps@.len() ==> (#[trigger] ps@[i]).milliwatts <= MAX_MILLIWATTS,
            out@ == points_below(ps@, p as nat),
            forall|i: int|
                0 <= i < out@.len() ==> (#[trigger] out@[i]).percent < p && out@[i].milliwatts
                    <= MAX_MILLIWATTS,
            forall|i: int, j: int|
                0 <= i < j < out@.len() ==> (#[trigger] out@[i]).percent < (#[trigger] out@[j]).percent,
        decreases 101 - p,
    {
        match find_point(ps, p) {
            Some(q) => {
                out.push(q);
            },
            None => {},
        }
        p = p + 1;
    }
    out
}

/// Whether the scan stops at record `r`: it is unreadable or holds `key`.
fn record_stops(r: &Vec<String>, lay: &Layout, key: &str) -> (b: bool)
    ensures
        b == stops_at(record_view(*r), lay.type_col as int, cols_view(lay.cols@), key@),
{
    if lay.type_col >= r.len() {
        return true;
    }
    match record_points(r, &lay.cols) {
        None => true,
        Some(_) => {
            assert(record_view(*r)[lay.type_col as int] == r@[lay.type_col as int]@);
            text_eq(r[lay.type_col].as_str(), key)
        },
    }
}

/// Selects the row for `key` from the records of a calibration table, the
/// header first; `read_failed` says that reading stopped early at an
/// unreadable record.
pub fn find_row(rows: &Vec<Vec<String>>, read_failed: bool, key: &str) -> (r: Result<
    CalibrationRow,
    LoadError,
>)
    ensures
        row_result_view(r) == select_row(records_view(rows@), read_failed, key@),
        r matches Ok(row) ==> row.wf(),
{
    let ghost rv = records_view(rows@);
    let n = rows.len();
    if n == 0 {
        return if read_failed {
            Err(LoadError::MalformedRow { record: 0 })
        } else {
            Err(LoadError::MalformedHeader)
        };
    }
    assert(rv[0] == record_view(rows@[0]));
    let lay = match read_header(&rows[0]) {
        None => {
            return Err(LoadError::MalformedHeader);
        },
        Some(l) => l,
    };
    let ghost d = rv.skip(1);
    let ghost tc = lay.type_col as int;
    let ghost cv = cols_view(lay.cols@);
    let mut found: Option<usize> = None;
    let mut k: usize = 0;
    while k + 1 < n
        invariant
            n == rows@.len() == rv.len(),
            rv == records_view(rows@),
            d == rv.skip(1),
            tc == lay.type_col as int,
            cv == cols_view(lay.cols@),
            k + 1 <= n,
            match found {
                Some(i) => first_stop(d.take(k as int), tc, cv, key@) == Some(i as int) && i < k,
                None => first_stop(d.take(k as int), tc, cv, key@) is None,
            },
        decreases n - k,
    {
        assert(d.take(k + 1).drop_last() =~= d.take(k as int));
        assert(d.take(k + 1).last() == record_view(rows@[k + 1]));
        if found.is_none() && record_stops(&rows[k + 1], &lay, key) {
            found = Some(k);
        }
        k = k + 1;
    }
    assert(d.take(k as int) =~= d);
    match found {
        None => if read_failed {
            Err(LoadError::MalformedRow { record: n })
        } else {
            Err(LoadError::NotFound)
        },
        Some(i) => {
            let row = &rows[i + 1];
            assert(rv[i + 1] == record_view(rows@[i + 1]));
            if lay.type_col >= row.len() {
                return Err(LoadError::MalformedRow { record: i + 1 });
            }
            match record_points(row, &lay.cols) {
                None => Err(LoadError::MalformedRow { record: i + 1 }),
                Some(points) => {
                    assert(row_points(rv[i + 1], cv) is Some);
                    proof {
                        lemma_first_stop(d, tc, cv, key@);
                    }
                    assert(d[i as int] == rv[i + 1]);
                    assert(record_view(*row)[tc] == key@);
                    assert(row@[tc]@ == key@);
                    let type_id = row[lay.type_col].clone();
                    let points = sort_by_percent(&points);
                    Ok(CalibrationRow { type_id, points })
                },
            }
        },
    }
}

/// Loads the calibration row for instance type `key` from the bytes of a
/// calibration table.
pub fn load_calibration(data: &[u8], key: &str) -> (r: Result<CalibrationRow, LoadError>)
    ensures
        row_result_view(r) == select_row(csv_records_of(data@).0, csv_records_of(data@).1, key@),
        r matches Ok(row) ==> row.wf(),
{
    let (rows, err) = read_records(data);
    find_row(&rows, err.is_some(), key)
}

/// In a table that reads cleanly (a valid header, every record readable),
/// a type that no record holds is not found, and a type held by exactly one
/// record selects that record's reference points.
pub proof fn lemma_select_row_by_key(rows: Seq<Seq<Seq<char>>>, key: Seq<char>)
    requires
        rows.len() >= 1,
        header_ok(rows[0]),
        forall|i: int|
            1 <= i < rows.len() ==> row_ok(
                #[trigger] rows[i],
                find_column(rows[0], type_column_name()).unwrap(),
                ref_columns(rows[0]),
            ),
    ensures
        (forall|i: int|
            1 <= i < rows.len() ==> (#[trigger] rows[i])[find_column(rows[0], type_column_name()).unwrap()]
                != key) ==> select_row(rows, false, key) == Err::<(Seq<char>, Seq<RefPoint>), LoadError>(
            LoadError::NotFound,
        ),
        forall|k: int|
            1 <= k < rows.len() && (#[trigger] rows[k])[find_column(rows[0], type_column_name()).unwrap()]
                == key && (forall|i: int|
                1 <= i < rows.len() && i != k ==> (#[trigger] rows[i])[find_column(
                    rows[0],
                    type_column_name(),
                ).unwrap()] != key) ==> select_row(rows, false, key) == Ok::<
                (Seq<char>, Seq<RefPoint>),
                LoadError,
            >((key, by_percent(row_points(rows[k], ref_columns(rows[0])).unwrap()))),
{
    let tc = find_column(rows[0], type_column_name()).unwrap();
    let cols = ref_columns(rows[0]);
    let d = rows.skip(1);
    assert(forall|i: int| 0 <= i < d.len() ==> #[trigger] d[i] == rows[i + 1]);
    if forall|i: int| 1 <= i < rows.len() ==> (#[trigger] rows[i])[tc] != key {
        assert forall|i: int| 0 <= i < d.len() implies !stops_at(#[trigger] d[i], tc, cols, key) by {
            assert(d[i] == rows[i + 1]);
        }
        lemma_first_stop_at(d, tc, cols, key, d.len() as int);
    }
    assert forall|k: int|
        1 <= k < rows.len() && (#[trigger] rows[k])[tc] == key && (forall|i: int|
            1 <= i < rows.len() && i != k ==> (#[trigger] rows[i])[tc] != key) implies select_row(
        rows,
        false,
        key,
    ) == Ok::<(Seq<char>, Seq<RefPoint>), LoadError>(
        (key, by_percent(row_points(rows[k], cols).unwrap())),
    ) by {
        assert forall|i: int| 0 <= i < k - 1 implies !stops_at(#[trigger] d[i], tc, cols, key) by {
            assert(d[i] == rows[i + 1]);
            assert(rows[i + 1][tc] != key);
        }
        assert(d[k - 1] == rows[k]);
        lemma_first_stop_at(d, tc, cols, key, k - 1);
    }
}

} // verus!
