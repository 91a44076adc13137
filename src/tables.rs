use crate::conditions::str_eq;
use crate::store::{Depencil, Kiste, Lesart};
use vstd::prelude::*;
use vstd::string::StrSliceExecFns;

verus! {

/// The records of a CSV text, header included, in order: the fields of
/// each record, or `None` for a record the CSV reader rejects.
pub uninterp spec fn csv_records(b: Seq<u8>) -> Seq<Option<Seq<Seq<char>>>>;

/// The view of a record.
pub open spec fn record_view(r: Option<Vec<String>>) -> Option<Seq<Seq<char>>> {
    match r {
        Some(f) => Some(f@.map_values(|s: String| s@)),
        None => None,
    }
}

/// Relies on `csv::Reader` over the bytes, with the header read as a record
/// and records of any length: each record as its fields, `None` where the
/// reader reports an error for it.
#[verifier::external_body]
pub(crate) fn read_records(b: &[u8]) -> (r: Vec<Option<Vec<String>>>)
    ensures
        r@.map_values(|x: Option<Vec<String>>| record_view(x)) == csv_records(b@),
{
    let mut reader = csv::ReaderBuilder::new().has_headers(false).flexible(true).from_reader(b);
    let mut records = Vec::new();
    for record in reader.records() {
        records.push(record.ok().map(|fields| fields.iter().map(String::from).collect()));
    }
    records
}

pub open spec fn is_digit(c: char) -> bool {
    '0' <= c && c <= '9'
}

/// The number that decimal digits write.
pub open spec fn decimal_value(s: Seq<char>) -> int
    decreases s.len(),
{
    if s.len() == 0 {
        0
    } else {
        decimal_value(s.drop_last()) * 10 + (s.last() as int - '0' as int)
    }
}

/// A field that holds a `u32` in decimal: digits only, at least one.
pub open spec fn u32_of(s: Seq<char>) -> Option<u32> {
    if s.len() > 0 && (forall|i: int| 0 <= i < s.len() ==> is_digit(#[trigger] s[i])) && decimal_value(s) <= u32::MAX {
        Some(decimal_value(s) as u32)
    } else {
        None
    }
}

proof fn lemma_decimal_grows(s: Seq<char>, i: int)
    requires
        0 <= i <= s.len(),
        forall|j: int| 0 <= j < s.len() ==> is_digit(#[trigger] s[j]),
    ensures
        decimal_value(s) >= decimal_value(s.take(i)) >= 0,
    decreases s.len() - i,
{
    assert(s.take(s.len() as int) =~= s);
    if i < s.len() {
        lemma_decimal_grows(s, i + 1);
        assert(s.take(i + 1).drop_last() =~= s.take(i));
        lemma_decimal_nonneg(s.take(i));
    } else {
        lemma_decimal_nonneg(s);
    }
}

proof fn lemma_decimal_nonneg(s: Seq<char>)
    requires
        forall|j: int| 0 <= j < s.len() ==> is_digit(#[trigger] s[j]),
    ensures
        decimal_value(s) >= 0,
    decreases s.len(),
{
    if s.len() > 0 {
        lemma_decimal_nonneg(s.drop_last());
    }
}

/// Reads a `u32` written in decimal digits.
pub fn parse_u32(s: &str) -> (r: Option<u32>)
    ensures
        r == u32_of(s@),
{
    let n = s.unicode_len();
    let mut acc: u64 = 0;
    let mut too_big = false;
    let mut i: usize = 0;
    while i < n
        invariant
            n == s@.len(),
            i <= n,
            forall|j: int| 0 <= j < i ==> is_digit(#[trigger] s@[j]),
            !too_big ==> acc == decimal_value(s@.take(i as int)) && acc <= u32::MAX,
            too_big ==> decimal_value(s@.take(i as int)) > u32::MAX,
        decreases n - i,
    {
        let c = s.get_char(i);
        if !('0' <= c && c <= '9') {
            return None;
        }
        assert(s@.take(i + 1).drop_last() =~= s@.take(i as int));
        proof {
            lemma_decimal_nonneg(s@.take(i as int));
        }
        if !too_big {
            acc = acc * 10 + (c as u64 - '0' as u64);
            if acc > 0xffff_ffff {
                too_big = true;
            }
        }
        i = i + 1;
    }
    assert(s@.take(n as int) =~= s@);
    if n == 0 || too_big {
        proof {
            if too_big {
                lemma_decimal_grows(s@, n as int);
            }
        }
        None
    } else {
        Some(acc as u32)
    }
}

/// Column `c` is the first that the header names `name`.
pub open spec fn first_column(h: Seq<Seq<char>>, name: Seq<char>, c: int) -> bool {
    0 <= c < h.len() && h[c] == name && forall|j: int| 0 <= j < c ==> h[j] != name
}

/// The column the header names `name`, the first where it names it twice.
pub open spec fn column(h: Seq<Seq<char>>, name: Seq<char>) -> Option<int> {
    if exists|c: int| first_column(h, name, c) {
        Some(choose|c: int| first_column(h, name, c))
    } else {
        None
    }
}

/// Finds the column named `name`.
pub fn find_column(h: &Vec<String>, name: &str) -> (r: Option<usize>)
    ensures
        match r {
            Some(c) => column(h@.map_values(|s: String| s@), name@) == Some(c as int),
            None => column(h@.map_values(|s: String| s@), name@) is None,
        },
{
    let ghost hv = h@.map_values(|s: String| s@);
    let mut i: usize = 0;
    while i < h.len()
        invariant
            i <= h@.len(),
            hv == h@.map_values(|s: String| s@),
            forall|j: int| 0 <= j < i ==> hv[j] != name@,
        decreases h@.len() - i,
    {
        if str_eq(h[i].as_str(), name) {
            assert(first_column(hv, name@, i as int));
            proof {
                assert forall|c: int| first_column(hv, name@, c) implies c == i by {
                    if c < i {
                    } else if c > i {
                        assert(hv[i as int] == name@);
                    }
                }
            }
            return Some(i);
        }
        i = i + 1;
    }
    None
}

/// The header of a table: its first record, or no column at all where the
/// table is empty or the header cannot be read.
pub open spec fn header_of(recs: Seq<Option<Seq<Seq<char>>>>) -> Seq<Seq<char>> {
    if recs.len() > 0 && recs[0] is Some {
        recs[0]->Some_0
    } else {
        Seq::empty()
    }
}

/// The records after the header.
pub open spec fn data_of(recs: Seq<Option<Seq<Seq<char>>>>) -> Seq<Option<Seq<Seq<char>>>> {
    if recs.len() > 0 {
        recs.skip(1)
    } else {
        Seq::empty()
    }
}

/// A crate as its table gives it: id, name, and all the fields of its row.
pub type CrateRow = (u32, Seq<char>, Seq<(Seq<char>, Seq<char>)>);

/// The fields of a record under the names of their columns, as far as
/// both reach.
pub open spec fn fields_under(h: Seq<Seq<char>>, f: Seq<Seq<char>>) -> Seq<(Seq<char>, Seq<char>)> {
    Seq::new(if h.len() < f.len() { h.len() } else { f.len() }, |c: int| (h[c], f[c]))
}

/// A row of the crate table: its `id` and `name` fields, and all its fields
/// under their columns' names.
pub open spec fn crate_row(h: Seq<Seq<char>>, rec: Option<Seq<Seq<char>>>) -> Option<CrateRow> {
    match (rec, column(h, "id"@), column(h, "name"@)) {
        (Some(f), Some(ci), Some(cn)) => if ci < f.len() && cn < f.len() && u32_of(f[ci]) is Some {
            Some((u32_of(f[ci])->Some_0, f[cn], fields_under(h, f)))
        } else {
            None
        },
        _ => None,
    }
}

/// The rows that read as crates.
pub open spec fn crate_rows(h: Seq<Seq<char>>, recs: Seq<Option<Seq<Seq<char>>>>) -> Seq<CrateRow>
    decreases recs.len(),
{
    if recs.len() == 0 {
        Seq::empty()
    } else {
        let r = crate_rows(h, recs.drop_last());
        match crate_row(h, recs.last()) {
            Some(k) => r.push(k),
            None => r,
        }
    }
}

/// The number of rows that do not read as crates.
pub open spec fn bad_crate_rows(h: Seq<Seq<char>>, recs: Seq<Option<Seq<Seq<char>>>>) -> nat
    decreases recs.len(),
{
    if recs.len() == 0 {
        0
    } else {
        bad_crate_rows(h, recs.drop_last()) + if crate_row(h, recs.last()) is Some { 0nat } else { 1nat }
    }
}

pub open spec fn kiste_view(k: Kiste) -> CrateRow {
    (k.id, k.name@, crate::store::metadata_view(k.metadata@))
}

/// The texts of a sequence of strings.
pub open spec fn texts(v: Seq<String>) -> Seq<Seq<char>> {
    v.map_values(|s: String| s@)
}

/// Pairs each field of a record with its column's name.
fn fields_with_names(h: &Vec<String>, f: &Vec<String>) -> (r: Vec<(String, String)>)
    ensures
        crate::store::metadata_view(r@) == fields_under(texts(h@), texts(f@)),
{
    let n = if h.len() < f.len() { h.len() } else { f.len() };
    let ghost want = fields_under(texts(h@), texts(f@));
    let mut r: Vec<(String, String)> = Vec::new();
    let mut c: usize = 0;
    while c < n
        invariant
            c <= n,
            n <= h@.len(),
            n <= f@.len(),
            want.len() == n,
            want == fields_under(texts(h@), texts(f@)),
            crate::store::metadata_view(r@) == want.take(c as int),
        decreases n - c,
    {
        let ghost before = r@;
        let pair = (h[c].clone(), f[c].clone());
        assert(pair.0@ == h@[c as int]@ && pair.1@ == f@[c as int]@);
        assert(want[c as int] == (pair.0@, pair.1@));
        r.push(pair);
        assert(crate::store::metadata_view(r@) =~= crate::store::metadata_view(before).push((pair.0@, pair.1@)));
        assert(crate::store::metadata_view(r@) =~= want.take(c + 1));
        c = c + 1;
    }
    assert(want.take(n as int) =~= want);
    r
}

/// Reads the crate table: the crates of its rows after the header, and the
/// number of rows that could not be read.
pub fn decode_crates(recs: &Vec<Option<Vec<String>>>) -> (r: (Vec<Kiste>, usize))
    ensures
        ({
            let v = recs@.map_values(|x: Option<Vec<String>>| record_view(x));
            &&& r.0@.map_values(|k: Kiste| kiste_view(k)) == crate_rows(header_of(v), data_of(v))
            &&& r.1 == bad_crate_rows(header_of(v), data_of(v))
        }),
{
    let ghost v = recs@.map_values(|x: Option<Vec<String>>| record_view(x));
    if recs.len() == 0 {
        let out: Vec<Kiste> = Vec::new();
        assert(out@.map_values(|k: Kiste| kiste_view(k)) =~= Seq::<(u32, Seq<char>, Seq<(Seq<char>, Seq<char>)>)>::empty());
        return (out, 0);
    }
    let empty: Vec<String> = Vec::new();
    let header: &Vec<String> = match &recs[0] {
        Some(h) => h,
        None => &empty,
    };
    let ghost h = texts(header@);
    assert(h =~= header_of(v));
    assert(v.subrange(1, 1) =~= Seq::<Option<Seq<Seq<char>>>>::empty());
    let id_col = find_column(header, "id");
    let name_col = find_column(header, "name");
    let mut out: Vec<Kiste> = Vec::new();
    assert(out@.map_values(|k: Kiste| kiste_view(k)) =~= crate_rows(h, v.subrange(1, 1)));
    let mut bad: usize = 0;
    let mut j: usize = 1;
    while j < recs.len()
        invariant
            1 <= j <= recs@.len(),
            v == recs@.map_values(|x: Option<Vec<String>>| record_view(x)),
            h == header_of(v),
            h == texts(header@),
            id_col is Some ==> column(h, "id"@) == Some(id_col->Some_0 as int),
            id_col is None ==> column(h, "id"@) is None,
            name_col is Some ==> column(h, "name"@) == Some(name_col->Some_0 as int),
            name_col is None ==> column(h, "name"@) is None,
            out@.map_values(|k: Kiste| kiste_view(k)) == crate_rows(h, v.subrange(1, j as int)),
            bad == bad_crate_rows(h, v.subrange(1, j as int)),
            bad <= j,
        decreases recs@.len() - j,
    {
        let ghost prev = out@;
        assert(v.subrange(1, j + 1).drop_last() =~= v.subrange(1, j as int));
        let mut row: Option<Kiste> = None;
        if let (Some(rec), Some(ci), Some(cn)) = (&recs[j], id_col, name_col) {
            assert(v[j as int] == Some(rec@.map_values(|s: String| s@)));
            if ci < rec.len() && cn < rec.len() {
                match parse_u32(rec[ci].as_str()) {
                    Some(id) => {
                        let metadata = fields_with_names(header, rec);
                        assert(texts(rec@) =~= rec@.map_values(|s: String| s@));
                        let k = Kiste { id, name: rec[cn].clone(), metadata };
                        assert(crate::store::metadata_view(k.metadata@) == fields_under(h, rec@.map_values(|s: String| s@)));
                        assert(k.name@ == rec@[cn as int]@);
                        row = Some(k);
                    }
                    None => {}
                }
            }
        }
        match row {
            Some(k) => {
                out.push(k);
                assert(out@.map_values(|k: Kiste| kiste_view(k)) =~= prev.map_values(|k: Kiste| kiste_view(k)).push(kiste_view(k)));
            }
            None => {
                bad = bad + 1;
            }
        }
        j = j + 1;
    }
    assert(v.subrange(1, recs@.len() as int) =~= data_of(v));
    (out, bad)
}

/// A row of the version table: its `id`, and its `crate_id` where the field
/// is not empty.
pub open spec fn version_row(h: Seq<Seq<char>>, rec: Option<Seq<Seq<char>>>) -> Option<(u32, Option<u32>)> {
    match (rec, column(h, "id"@), column(h, "crate_id"@)) {
        (Some(f), Some(ci), Some(cc)) => if ci < f.len() && cc < f.len() && u32_of(f[ci]) is Some
            && (f[cc].len() == 0 || u32_of(f[cc]) is Some) {
            Some((u32_of(f[ci])->Some_0, if f[cc].len() == 0 { None } else { u32_of(f[cc]) }))
        } else {
            None
        },
        _ => None,
    }
}

pub open spec fn version_rows(h: Seq<Seq<char>>, recs: Seq<Option<Seq<Seq<char>>>>) -> Seq<(u32, Option<u32>)>
    decreases recs.len(),
{
    if recs.len() == 0 {
        Seq::empty()
    } else {
        let r = version_rows(h, recs.drop_last());
        match version_row(h, recs.last()) {
            Some(k) => r.push(k),
            None => r,
        }
    }
}

pub open spec fn bad_version_rows(h: Seq<Seq<char>>, recs: Seq<Option<Seq<Seq<char>>>>) -> nat
    decreases recs.len(),
{
    if recs.len() == 0 {
        0
    } else {
        bad_version_rows(h, recs.drop_last()) + if version_row(h, recs.last()) is Some { 0nat } else { 1nat }
    }
}

pub open spec fn lesart_view(l: Lesart) -> (u32, Option<u32>) {
    (l.id, l.crate_id)
}

/// A row of the dependency table: its `crate_id` and `version_id`, and its
/// `req` where the table has that column.
pub open spec fn dependency_row(h: Seq<Seq<char>>, rec: Option<Seq<Seq<char>>>) -> Option<(u32, u32, Option<Seq<char>>)> {
    match (rec, column(h, "crate_id"@), column(h, "version_id"@)) {
        (Some(f), Some(cc), Some(cv)) => if cc < f.len() && cv < f.len() && u32_of(f[cc]) is Some && u32_of(f[cv]) is Some
            && (column(h, "req"@) is None || column(h, "req"@)->Some_0 < f.len()) {
            Some((u32_of(f[cc])->Some_0, u32_of(f[cv])->Some_0, match column(h, "req"@) {
                Some(cr) => Some(f[cr]),
                None => None,
            }))
        } else {
            None
        },
        _ => None,
    }
}

pub open spec fn dependency_rows(h: Seq<Seq<char>>, recs: Seq<Option<Seq<Seq<char>>>>) -> Seq<(u32, u32, Option<Seq<char>>)>
    decreases recs.len(),
{
    if recs.len() == 0 {
        Seq::empty()
    } else {
        let r = dependency_rows(h, recs.drop_last());
        match dependency_row(h, recs.last()) {
            Some(k) => r.push(k),
            None => r,
        }
    }
}

pub open spec fn bad_dependency_rows(h: Seq<Seq<char>>, recs: Seq<Option<Seq<Seq<char>>>>) -> nat
    decreases recs.len(),
{
    if recs.len() == 0 {
        0
    } else {
        bad_dependency_rows(h, recs.drop_last()) + if dependency_row(h, recs.last()) is Some { 0nat } else { 1nat }
    }
}

pub open spec fn depencil_view(d: Depencil) -> (u32, u32, Option<Seq<char>>) {
    (d.crate_id, d.version_id, crate::store::opt_view(d.req))
}

/// Reads the version table: the versions of its rows after the header, and
/// the number of rows that could not be read.
pub fn decode_versions(recs: &Vec<Option<Vec<String>>>) -> (r: (Vec<Lesart>, usize))
    ensures
        ({
            let v = recs@.map_values(|x: Option<Vec<String>>| record_view(x));
            &&& r.0@.map_values(|k: Lesart| lesart_view(k)) == version_rows(header_of(v), data_of(v))
            &&& r.1 == bad_version_rows(header_of(v), data_of(v))
        }),
{
    let ghost v = recs@.map_values(|x: Option<Vec<String>>| record_view(x));
    if recs.len() == 0 {
        let out: Vec<Lesart> = Vec::new();
        assert(out@.map_values(|k: Lesart| lesart_view(k)) =~= Seq::<(u32, Option<u32>)>::empty());
        return (out, 0);
    }
    let empty: Vec<String> = Vec::new();
    let header: &Vec<String> = match &recs[0] {
        Some(h) => h,
        None => &empty,
    };
    let ghost h = header@.map_values(|s: String| s@);
    assert(h =~= header_of(v));
    assert(v.subrange(1, 1) =~= Seq::<Option<Seq<Seq<char>>>>::empty());
    let id_col = find_column(header, "id");
    let crate_col = find_column(header, "crate_id");
    let mut out: Vec<Lesart> = Vec::new();
    assert(out@.map_values(|k: Lesart| lesart_view(k)) =~= version_rows(h, v.subrange(1, 1)));
    let mut bad: usize = 0;
    let mut j: usize = 1;
    while j < recs.len()
        invariant
            1 <= j <= recs@.len(),
            v == recs@.map_values(|x: Option<Vec<String>>| record_view(x)),
            h == header_of(v),
            id_col is Some ==> column(h, "id"@) == Some(id_col->Some_0 as int),
            id_col is None ==> column(h, "id"@) is None,
            crate_col is Some ==> column(h, "crate_id"@) == Some(crate_col->Some_0 as int),
            crate_col is None ==> column(h, "crate_id"@) is None,
            out@.map_values(|k: Lesart| lesart_view(k)) == version_rows(h, v.subrange(1, j as int)),
            bad == bad_version_rows(h, v.subrange(1, j as int)),
            bad <= j,
        decreases recs@.len() - j,
    {
        let ghost prev = out@;
        assert(v.subrange(1, j + 1).drop_last() =~= v.subrange(1, j as int));
        let mut row: Option<Lesart> = None;
        if let (Some(rec), Some(ci), Some(cc)) = (&recs[j], id_col, crate_col) {
            assert(v[j as int] == Some(rec@.map_values(|s: String| s@)));
            if ci < rec.len() && cc < rec.len() {
                if let Some(id) = parse_u32(rec[ci].as_str()) {
                    if rec[cc].as_str().unicode_len() == 0 {
                        row = Some(Lesart { id, crate_id: None });
                    } else if let Some(c) = parse_u32(rec[cc].as_str()) {
                        row = Some(Lesart { id, crate_id: Some(c) });
                    }
                }
            }
        }
        match row {
            Some(k) => {
                out.push(k);
                assert(out@.map_values(|k: Lesart| lesart_view(k)) =~= prev.map_values(|k: Lesart| lesart_view(k)).push(lesart_view(k)));
            }
            None => {
                bad = bad + 1;
            }
        }
        j = j + 1;
    }
    assert(v.subrange(1, recs@.len() as int) =~= data_of(v));
    (out, bad)
}

/// Reads the dependency table: the dependencies of its rows after the
/// header, and the number of rows that could not be read.
pub fn decode_dependencies(recs: &Vec<Option<Vec<String>>>) -> (r: (Vec<Depencil>, usize))
    ensures
        ({
            let v = recs@.map_values(|x: Option<Vec<String>>| record_view(x));
            &&& r.0@.map_values(|k: Depencil| depencil_view(k)) == dependency_rows(header_of(v), data_of(v))
            &&& r.1 == bad_dependency_rows(header_of(v), data_of(v))
        }),
{
    let ghost v = recs@.map_values(|x: Option<Vec<String>>| record_view(x));
    if recs.len() == 0 {
        let out: Vec<Depencil> = Vec::new();
        assert(out@.map_values(|k: Depencil| depencil_view(k)) =~= Seq::<(u32, u32, Option<Seq<char>>)>::empty());
        return (out, 0);
    }
    let empty: Vec<String> = Vec::new();
    let header: &Vec<String> = match &recs[0] {
        Some(h) => h,
        None => &empty,
    };
    let ghost h = header@.map_values(|s: String| s@);
    assert(h =~= header_of(v));
    assert(v.subrange(1, 1) =~= Seq::<Option<Seq<Seq<char>>>>::empty());
    let crate_col = find_column(header, "crate_id");
    let version_col = find_column(header, "version_id");
    let req_col = find_column(header, "req");
    let mut out: Vec<Depencil> = Vec::new();
    assert(out@.map_values(|k: Depencil| depencil_view(k)) =~= dependency_rows(h, v.subrange(1, 1)));
    let mut bad: usize = 0;
    let mut j: usize = 1;
    while j < recs.len()
        invariant
            1 <= j <= recs@.len(),
            v == recs@.map_values(|x: Option<Vec<String>>| record_view(x)),
            h == header_of(v),
            crate_col is Some ==> column(h, "crate_id"@) == Some(crate_col->Some_0 as int),
            crate_col is None ==> column(h, "crate_id"@) is None,
            version_col is Some ==> column(h, "version_id"@) == Some(version_col->Some_0 as int),
            version_col is None ==> column(h, "version_id"@) is None,
            req_col is Some ==> column(h, "req"@) == Some(req_col->Some_0 as int),
            req_col is None ==> column(h, "req"@) is None,
            out@.map_values(|k: Depencil| depencil_view(k)) == dependency_rows(h, v.subrange(1, j as int)),
            bad == bad_dependency_rows(h, v.subrange(1, j as int)),
            bad <= j,
        decreases recs@.len() - j,
    {
        let ghost prev = out@;
        assert(v.subrange(1, j + 1).drop_last() =~= v.subrange(1, j as int));
        let mut row: Option<Depencil> = None;
        if let (Some(rec), Some(cc), Some(cv)) = (&recs[j], crate_col, version_col) {
            assert(v[j as int] == Some(rec@.map_values(|s: String| s@)));
            if cc < rec.len() && cv < rec.len() {
                if let (Some(crate_id), Some(version_id)) = (parse_u32(rec[cc].as_str()), parse_u32(rec[cv].as_str())) {
                    match req_col {
                        Some(cr) => {
                            if cr < rec.len() {
                                row = Some(Depencil { crate_id, version_id, req: Some(rec[cr].clone()) });
                            }
                        }
                        None => {
                            row = Some(Depencil { crate_id, version_id, req: None });
                        }
                    }
                }
            }
        }
        match row {
            Some(k) => {
                out.push(k);
                assert(out@.map_values(|k: Depencil| depencil_view(k)) =~= prev.map_values(|k: Depencil| depencil_view(k)).push(depencil_view(k)));
            }
            None => {
                bad = bad + 1;
            }
        }
        j = j + 1;
    }
    assert(v.subrange(1, recs@.len() as int) =~= data_of(v));
    (out, bad)
}

} // verus!
