//! The job pipeline: discovery of `.sql` files, record building from query
//! rows (later rows overriding earlier columns), the record's JSON form, and
//! the fatal-versus-skip failure policy. The caller lists the directory,
//! reads the files, runs the statements and sends the remote call; the
//! library decides what becomes a job, what bytes are sent, and when a run
//! aborts.
use vstd::prelude::*;

use crate::auth::clone_bytes;
use crate::codec::{BACKSLASH, COLON, COMMA, LBRACE, QUOTE, RBRACE};
use crate::Config;

verus! {

/// The error kinds a run can surface. `Io`, `DatabaseConnect` and `Database`
/// stand for failures the caller meets at the filesystem and the database;
/// `Json` for a malformed token file; `Job` for a filename that is no SQL
/// file, absorbed during discovery.
#[derive(Debug, Clone, Copy, PartialEq, Eq, Structural)]
pub enum ImporterError {
    Io,
    Job,
    DatabaseConnect,
    Database,
    Json,
}

// ------------------------------------------------------------------
// Filenames and discovery.
// ------------------------------------------------------------------
/// A path names a SQL file when it ends in `.sql` with at least one byte
/// before the suffix.
pub open spec fn is_sql_path(p: Seq<u8>) -> bool {
    p.len() > 4 && p.subrange(p.len() - 4, p.len() as int) == seq![46u8, 115u8, 113u8, 108u8]
}

/// The sheet label a SQL path yields: the path with the `.sql` suffix
/// removed.
pub open spec fn sheet_of(p: Seq<u8>) -> Seq<u8> {
    p.subrange(0, p.len() - 4)
}

/// Decides `is_sql_path`.
pub fn check_sql_path(p: &Vec<u8>) -> (r: bool)
    ensures
        r == is_sql_path(p@),
{
    let n = p.len();
    if n <= 4 {
        return false;
    }
    let ghost suffix = p@.subrange(n as int - 4, n as int);
    let ghost want: Seq<u8> = seq![46u8, 115u8, 113u8, 108u8];
    if p[n - 4] == 46 && p[n - 3] == 115 && p[n - 2] == 113 && p[n - 1] == 108 {
        proof {
            assert(suffix =~= want);
        }
        true
    } else {
        proof {
            assert(suffix[0] == p@[n - 4] && suffix[1] == p@[n - 3] && suffix[2] == p@[n - 2]
                && suffix[3] == p@[n - 1]);
            assert(suffix != want);
        }
        false
    }
}

/// One directory entry as the caller saw it.
pub struct EntryInfo {
    pub path: Vec<u8>,
    pub is_dir: bool,
}

/// The byte content of a sequence of paths.
pub open spec fn paths_view(ps: Seq<Vec<u8>>) -> Seq<Seq<u8>> {
    ps.map_values(|p: Vec<u8>| p@)
}

/// The paths discovery turns into jobs: every entry that is not a directory
/// and names a SQL file, in listing order.
pub open spec fn sql_candidates(es: Seq<EntryInfo>) -> Seq<Seq<u8>>
    decreases es.len(),
{
    if es.len() == 0 {
        seq![]
    } else {
        let rest = sql_candidates(es.drop_last());
        if !es.last().is_dir && is_sql_path(es.last().path@) {
            rest.push(es.last().path@)
        } else {
            rest
        }
    }
}

/// The files discovery skips with a log line: plain files that are no SQL
/// files.
pub open spec fn skipped_files(es: Seq<EntryInfo>) -> Seq<Seq<u8>>
    decreases es.len(),
{
    if es.len() == 0 {
        seq![]
    } else {
        let rest = skipped_files(es.drop_last());
        if !es.last().is_dir && !is_sql_path(es.last().path@) {
            rest.push(es.last().path@)
        } else {
            rest
        }
    }
}

/// What a directory listing divides into: the SQL files to read and the
/// files to skip. Directories fall in neither list.
pub struct Discovery {
    pub sql_paths: Vec<Vec<u8>>,
    pub skipped: Vec<Vec<u8>>,
}

/// Partitions the directory entries: exactly the non-directory entries whose
/// names parse become job candidates, the other plain files are skipped, and
/// listing order is kept.
pub fn discover(entries: &Vec<EntryInfo>) -> (d: Discovery)
    ensures
        paths_view(d.sql_paths@) == sql_candidates(entries@),
        paths_view(d.skipped@) == skipped_files(entries@),
{
    let mut sql_paths: Vec<Vec<u8>> = Vec::new();
    let mut skipped: Vec<Vec<u8>> = Vec::new();
    let n = entries.len();
    let mut i: usize = 0;
    while i < n
        invariant
            n == entries@.len(),
            i <= n,
            paths_view(sql_paths@) == sql_candidates(entries@.take(i as int)),
            paths_view(skipped@) == skipped_files(entries@.take(i as int)),
        decreases n - i,
    {
        let ghost pre = entries@.take(i as int);
        proof {
            assert(entries@.take(i as int + 1).drop_last() =~= pre);
            assert(entries@.take(i as int + 1).last() == entries@[i as int]);
        }
        if !entries[i].is_dir {
            if check_sql_path(&entries[i].path) {
                sql_paths.push(clone_bytes(&entries[i].path));
                proof {
                    assert(paths_view(sql_paths@) =~= sql_candidates(entries@.take(i as int + 1)));
                    assert(paths_view(skipped@) =~= skipped_files(entries@.take(i as int + 1)));
                }
            } else {
                skipped.push(clone_bytes(&entries[i].path));
                proof {
                    assert(paths_view(sql_paths@) =~= sql_candidates(entries@.take(i as int + 1)));
                    assert(paths_view(skipped@) =~= skipped_files(entries@.take(i as int + 1)));
                }
            }
        } else {
            proof {
                assert(paths_view(sql_paths@) =~= sql_candidates(entries@.take(i as int + 1)));
                assert(paths_view(skipped@) =~= skipped_files(entries@.take(i as int + 1)));
            }
        }
        i = i + 1;
    }
    proof {
        assert(entries@.take(n as int) =~= entries@);
    }
    Discovery { sql_paths, skipped }
}

// ------------------------------------------------------------------
// Records: the flattened column map of a query's rows.
// ------------------------------------------------------------------
/// One column of a returned row: its name and its value read as text.
pub struct Col {
    pub name: Vec<u8>,
    pub text: Vec<u8>,
}

impl View for Col {
    type V = (Seq<u8>, Seq<u8>);

    open spec fn view(&self) -> (Seq<u8>, Seq<u8>) {
        (self.name@, self.text@)
    }
}

pub open spec fn cols_view(cs: Seq<Col>) -> Seq<(Seq<u8>, Seq<u8>)> {
    cs.map_values(|c: Col| c@)
}

pub open spec fn rows_view(rs: Seq<Vec<Col>>) -> Seq<Seq<(Seq<u8>, Seq<u8>)>> {
    rs.map_values(|r: Vec<Col>| cols_view(r@))
}

pub open spec fn col_names_unique(rec: Seq<(Seq<u8>, Seq<u8>)>) -> bool {
    forall|i: int, j: int| 0 <= i < j < rec.len() ==> rec[i].0 != rec[j].0
}

pub open spec fn col_has(rec: Seq<(Seq<u8>, Seq<u8>)>, k: Seq<u8>) -> bool {
    exists|i: int| 0 <= i < rec.len() && rec[i].0 == k
}

pub open spec fn col_index(rec: Seq<(Seq<u8>, Seq<u8>)>, k: Seq<u8>) -> int {
    choose|i: int| 0 <= i < rec.len() && rec[i].0 == k
}

/// Sets column `k` to `v`: overwrites the value in place, or appends a fresh
/// column.
pub open spec fn col_upsert(rec: Seq<(Seq<u8>, Seq<u8>)>, k: Seq<u8>, v: Seq<u8>) -> Seq<
    (Seq<u8>, Seq<u8>),
> {
    if col_has(rec, k) {
        rec.update(col_index(rec, k), (k, v))
    } else {
        rec.push((k, v))
    }
}

/// Folds one row's columns onto a record.
pub open spec fn record_of_row(
    rec: Seq<(Seq<u8>, Seq<u8>)>,
    row: Seq<(Seq<u8>, Seq<u8>)>,
) -> Seq<(Seq<u8>, Seq<u8>)>
    decreases row.len(),
{
    if row.len() == 0 {
        rec
    } else {
        record_of_row(col_upsert(rec, row[0].0, row[0].1), row.drop_first())
    }
}

/// Folds every row in turn onto `rec`: a column a later row shares with an
/// earlier one keeps its place and takes the later value, so only the last
/// row survives in full.
pub open spec fn record_fold(
    rec: Seq<(Seq<u8>, Seq<u8>)>,
    rows: Seq<Seq<(Seq<u8>, Seq<u8>)>>,
) -> Seq<(Seq<u8>, Seq<u8>)>
    decreases rows.len(),
{
    if rows.len() == 0 {
        rec
    } else {
        record_fold(record_of_row(rec, rows[0]), rows.drop_first())
    }
}

/// The record a query's rows produce.
pub open spec fn record_of_rows(rows: Seq<Seq<(Seq<u8>, Seq<u8>)>>) -> Seq<(Seq<u8>, Seq<u8>)> {
    record_fold(Seq::empty(), rows)
}

/// Writing a column keeps the names unique.
proof fn lemma_col_upsert_unique(rec: Seq<(Seq<u8>, Seq<u8>)>, k: Seq<u8>, v: Seq<u8>)
    requires
        col_names_unique(rec),
    ensures
        col_names_unique(col_upsert(rec, k, v)),
{
    let up = col_upsert(rec, k, v);
    if col_has(rec, k) {
        let i = col_index(rec, k);
        assert(0 <= i < rec.len() && rec[i].0 == k);
        assert(forall|m: int| 0 <= m < up.len() ==> up[m].0 == rec[m].0);
    } else {
        assert(forall|m: int| 0 <= m < rec.len() ==> #[trigger] rec[m].0 != k);
        assert(forall|m: int| 0 <= m < rec.len() ==> up[m] == rec[m]);
        assert(up[rec.len() as int] == (k, v));
    }
}

/// Byte-for-byte comparison.
pub fn bytes_eq(a: &Vec<u8>, b: &Vec<u8>) -> (r: bool)
    ensures
        r == (a@ == b@),
{
    if a.len() != b.len() {
        return false;
    }
    let n = a.len();
    let mut i: usize = 0;
    while i < n
        invariant
            n == a@.len() && n == b@.len(),
            i <= n,
            forall|m: int| 0 <= m < i ==> a@[m] == b@[m],
        decreases n - i,
    {
        if a[i] != b[i] {
            return false;
        }
        i = i + 1;
    }
    proof {
        assert(a@ =~= b@);
    }
    true
}

/// Writes column `k := v` into the record under construction.
fn put_col(rec: &mut Vec<Col>, k: Vec<u8>, v: Vec<u8>)
    requires
        col_names_unique(cols_view(old(rec)@)),
    ensures
        cols_view(final(rec)@) == col_upsert(cols_view(old(rec)@), k@, v@),
        col_names_unique(cols_view(final(rec)@)),
{
    proof {
        lemma_col_upsert_unique(cols_view(rec@), k@, v@);
    }
    let n = rec.len();
    let mut i: usize = 0;
    while i < n
        invariant
            rec@ == old(rec)@,
            col_names_unique(cols_view(rec@)),
            n == rec@.len(),
            i <= n,
            forall|m: int| 0 <= m < i ==> cols_view(rec@)[m].0 != k@,
        decreases n - i,
    {
        if bytes_eq(&rec[i].name, &k) {
            proof {
                let rv = cols_view(rec@);
                assert(rv[i as int].0 == k@);
                assert(col_has(rv, k@));
                let ci = col_index(rv, k@);
                assert(0 <= ci < rv.len() && rv[ci].0 == k@);
                assert(ci == i as int);
            }
            rec.set(i, Col { name: k, text: v });
            proof {
                assert(cols_view(rec@) =~= col_upsert(cols_view(old(rec)@), k@, v@));
            }
            return ;
        }
        i = i + 1;
    }
    proof {
        assert(forall|m: int| 0 <= m < rec@.len() ==> cols_view(rec@)[m].0 != k@);
        assert(!col_has(cols_view(rec@), k@));
    }
    rec.push(Col { name: k, text: v });
    proof {
        assert(cols_view(rec@) =~= col_upsert(cols_view(old(rec)@), k@, v@));
    }
}

/// Flattens a query's rows into one record: columns in first-seen order,
/// each holding the value of the last row that named it. Zero rows yield the
/// empty record.
pub fn build_record(rows: &Vec<Vec<Col>>) -> (rec: Vec<Col>)
    ensures
        cols_view(rec@) == record_of_rows(rows_view(rows@)),
        col_names_unique(cols_view(rec@)),
{
    let mut rec: Vec<Col> = Vec::new();
    let nrows = rows.len();
    let mut i: usize = 0;
    proof {
        assert(cols_view(rec@) =~= Seq::<(Seq<u8>, Seq<u8>)>::empty());
        assert(rows_view(rows@).skip(0) =~= rows_view(rows@));
    }
    while i < nrows
        invariant
            nrows == rows@.len(),
            i <= nrows,
            col_names_unique(cols_view(rec@)),
            record_fold(cols_view(rec@), rows_view(rows@).skip(i as int)) == record_of_rows(
                rows_view(rows@),
            ),
        decreases nrows - i,
    {
        let ghost rest = rows_view(rows@).skip(i as int);
        let ghost row_target = record_of_row(cols_view(rec@), rows_view(rows@)[i as int]);
        proof {
            assert(rest[0] == rows_view(rows@)[i as int]);
            assert(rest.drop_first() =~= rows_view(rows@).skip(i as int + 1));
        }
        let ncols = rows[i].len();
        let mut j: usize = 0;
        proof {
            assert(cols_view(rows@[i as int]@).skip(0) =~= cols_view(rows@[i as int]@));
        }
        while j < ncols
            invariant
                i < rows@.len(),
                nrows == rows@.len(),
                ncols == rows@[i as int]@.len(),
                j <= ncols,
                col_names_unique(cols_view(rec@)),
                record_of_row(cols_view(rec@), cols_view(rows@[i as int]@).skip(j as int))
                    == row_target,
            decreases ncols - j,
        {
            let ghost cols_rest = cols_view(rows@[i as int]@).skip(j as int);
            proof {
                assert(cols_rest[0] == cols_view(rows@[i as int]@)[j as int]);
                assert(cols_rest.drop_first() =~= cols_view(rows@[i as int]@).skip(j as int + 1));
            }
            let k = clone_bytes(&rows[i][j].name);
            let v = clone_bytes(&rows[i][j].text);
            put_col(&mut rec, k, v);
            j = j + 1;
        }
        proof {
            assert(cols_view(rows@[i as int]@).skip(ncols as int) =~= Seq::<
                (Seq<u8>, Seq<u8>),
            >::empty());
            assert(rows_view(rows@)[i as int] == cols_view(rows@[i as int]@));
        }
        i = i + 1;
    }
    proof {
        assert(rows_view(rows@).skip(nrows as int) =~= Seq::<Seq<(Seq<u8>, Seq<u8>)>>::empty());
    }
    rec
}

// ------------------------------------------------------------------
// The record's JSON form.
// ------------------------------------------------------------------
/// The hexadecimal digit of a value below sixteen, lower case.
pub open spec fn hex_digit(n: u8) -> u8 {
    if n < 10 {
        (48 + n) as u8
    } else {
        (87 + n) as u8
    }
}

/// How one byte appears inside a JSON string: quote and backslash take an
/// escape, the named control characters take their short form, other control
/// characters the `\u00..` form, everything else stands as itself.
pub open spec fn esc_byte(b: u8) -> Seq<u8> {
    if b == QUOTE {
        seq![BACKSLASH, QUOTE]
    } else if b == BACKSLASH {
        seq![BACKSLASH, BACKSLASH]
    } else if b == 8 {
        seq![BACKSLASH, 98u8]
    } else if b == 9 {
        seq![BACKSLASH, 116u8]
    } else if b == 10 {
        seq![BACKSLASH, 110u8]
    } else if b == 12 {
        seq![BACKSLASH, 102u8]
    } else if b == 13 {
        seq![BACKSLASH, 114u8]
    } else if b < 32 {
        seq![BACKSLASH, 117u8, 48u8, 48u8, hex_digit(b / 16), hex_digit(b % 16)]
    } else {
        seq![b]
    }
}

pub open spec fn esc_bytes(s: Seq<u8>) -> Seq<u8>
    decreases s.len(),
{
    if s.len() == 0 {
        seq![]
    } else {
        esc_bytes(s.drop_last()) + esc_byte(s.last())
    }
}

/// A JSON string: the escaped bytes in quotes.
pub open spec fn quoted(s: Seq<u8>) -> Seq<u8> {
    seq![QUOTE] + esc_bytes(s) + seq![QUOTE]
}

pub open spec fn record_entry_bytes(k: Seq<u8>, v: Seq<u8>) -> Seq<u8> {
    quoted(k) + seq![COLON] + quoted(v)
}

pub open spec fn record_body_bytes(rec: Seq<(Seq<u8>, Seq<u8>)>) -> Seq<u8>
    decreases rec.len(),
{
    if rec.len() == 0 {
        seq![]
    } else if rec.len() == 1 {
        record_entry_bytes(rec.last().0, rec.last().1)
    } else {
        record_body_bytes(rec.drop_last()) + seq![COMMA] + record_entry_bytes(
            rec.last().0,
            rec.last().1,
        )
    }
}

/// The record as one JSON object.
pub open spec fn record_json_bytes(rec: Seq<(Seq<u8>, Seq<u8>)>) -> Seq<u8> {
    seq![LBRACE] + record_body_bytes(rec) + seq![RBRACE]
}

fn hex_digit_exec(n: u8) -> (r: u8)
    requires
        n < 16,
    ensures
        r == hex_digit(n),
{
    if n < 10 {
        48 + n
    } else {
        87 + n
    }
}

/// Appends `s` in its escaped form.
fn write_escaped(out: &mut Vec<u8>, s: &Vec<u8>)
    ensures
        final(out)@ == old(out)@ + esc_bytes(s@),
{
    let n = s.len();
    let mut i: usize = 0;
    proof {
        assert(esc_bytes(s@.take(0)) =~= Seq::<u8>::empty());
        assert(out@ =~= out@ + esc_bytes(s@.take(0)));
    }
    while i < n
        invariant
            n == s@.len(),
            i <= n,
            out@ == old(out)@ + esc_bytes(s@.take(i as int)),
        decreases n - i,
    {
        let ghost pre = s@.take(i as int);
        proof {
            assert(s@.take(i as int + 1).drop_last() =~= pre);
            assert(s@.take(i as int + 1).last() == s@[i as int]);
        }
        let b = s[i];
        if b == QUOTE {
            out.push(BACKSLASH);
            out.push(QUOTE);
        } else if b == BACKSLASH {
            out.push(BACKSLASH);
            out.push(BACKSLASH);
        } else if b == 8 {
            out.push(BACKSLASH);
            out.push(98);
        } else if b == 9 {
            out.push(BACKSLASH);
            out.push(116);
        } else if b == 10 {
            out.push(BACKSLASH);
            out.push(110);
        } else if b == 12 {
            out.push(BACKSLASH);
            out.push(102);
        } else if b == 13 {
            out.push(BACKSLASH);
            out.push(114);
        } else if b < 32 {
            out.push(BACKSLASH);
            out.push(117);
            out.push(48);
            out.push(48);
            out.push(hex_digit_exec(b / 16));
            out.push(hex_digit_exec(b % 16));
        } else {
            out.push(b);
        }
        proof {
            assert(out@ =~= old(out)@ + esc_bytes(s@.take(i as int + 1)));
        }
        i = i + 1;
    }
    proof {
        assert(s@.take(n as int) =~= s@);
    }
}

/// Serializes the record as one JSON object, columns in record order.
pub fn record_json(rec: &Vec<Col>) -> (out: Vec<u8>)
    ensures
        out@ == record_json_bytes(cols_view(rec@)),
{
    let mut out: Vec<u8> = Vec::new();
    out.push(LBRACE);
    let n = rec.len();
    let mut i: usize = 0;
    proof {
        assert(cols_view(rec@).take(0) =~= Seq::<(Seq<u8>, Seq<u8>)>::empty());
        assert(out@ =~= seq![LBRACE] + record_body_bytes(cols_view(rec@).take(0)));
    }
    while i < n
        invariant
            n == rec@.len(),
            i <= n,
            out@ == seq![LBRACE] + record_body_bytes(cols_view(rec@).take(i as int)),
        decreases n - i,
    {
        let ghost pre = cols_view(rec@).take(i as int);
        proof {
            assert(cols_view(rec@).take(i as int + 1).drop_last() =~= pre);
            assert(cols_view(rec@).take(i as int + 1).last() == cols_view(rec@)[i as int]);
        }
        if i > 0 {
            out.push(COMMA);
        }
        out.push(QUOTE);
        write_escaped(&mut out, &rec[i].name);
        out.push(QUOTE);
        out.push(COLON);
        out.push(QUOTE);
        write_escaped(&mut out, &rec[i].text);
        out.push(QUOTE);
        proof {
            assert(out@ =~= seq![LBRACE] + record_body_bytes(cols_view(rec@).take(i as int + 1)));
        }
        i = i + 1;
    }
    out.push(RBRACE);
    proof {
        assert(cols_view(rec@).take(n as int) =~= cols_view(rec@));
        assert(out@ =~= record_json_bytes(cols_view(rec@)));
    }
    out
}

// ------------------------------------------------------------------
// Jobs.
// ------------------------------------------------------------------
/// One unit of work: a statement read from one SQL file and the sheet label
/// its filename yields.
pub struct Job {
    pub sheet: Vec<u8>,
    pub sql: Vec<u8>,
}

impl View for Job {
    type V = (Seq<u8>, Seq<u8>);

    open spec fn view(&self) -> (Seq<u8>, Seq<u8>) {
        (self.sheet@, self.sql@)
    }
}

impl Job {
    /// Builds the job for one file whose text the caller read: the sheet
    /// label is the path with the `.sql` suffix removed, the text is the
    /// statement, verbatim. A path that names no SQL file is rejected as a
    /// job error, which discovery absorbs.
    pub fn new(path: &Vec<u8>, sql: Vec<u8>) -> (r: Result<Job, ImporterError>)
        ensures
            is_sql_path(path@) ==> (r matches Ok(j) && j@ == (sheet_of(path@), sql@)),
            !is_sql_path(path@) ==> r == Err::<Job, ImporterError>(ImporterError::Job),
    {
        if check_sql_path(path) {
            let mut sheet = clone_bytes(path);
            sheet.truncate(path.len() - 4);
            proof {
                assert(sheet@ =~= sheet_of(path@));
            }
            Ok(Job { sheet, sql })
        } else {
            Err(ImporterError::Job)
        }
    }

    /// The parameters of the job's remote call, from the rows its statement
    /// returned: the spreadsheet, the job's sheet label, and the flattened
    /// record as JSON.
    pub fn run(&self, spreadsheet_url: &Vec<u8>, rows: &Vec<Vec<Col>>) -> (params: Vec<Vec<u8>>)
        ensures
            params@.len() == 3,
            params@[0]@ == spreadsheet_url@,
            params@[1]@ == self.sheet@,
            params@[2]@ == record_json_bytes(record_of_rows(rows_view(rows@))),
    {
        let rec = build_record(rows);
        let json = record_json(&rec);
        let mut params: Vec<Vec<u8>> = Vec::new();
        params.push(clone_bytes(spreadsheet_url));
        params.push(clone_bytes(&self.sheet));
        params.push(json);
        params
    }
}

// ------------------------------------------------------------------
// The pipeline.
// ------------------------------------------------------------------
/// One file read during discovery.
pub struct SqlFile {
    pub path: Vec<u8>,
    pub contents: Vec<u8>,
}

pub open spec fn jobs_view(js: Seq<Job>) -> Seq<(Seq<u8>, Seq<u8>)> {
    js.map_values(|j: Job| j@)
}

/// The jobs a list of read files yields, in order: one per SQL path, the
/// rest dropped.
pub open spec fn jobs_of_files(fs: Seq<SqlFile>) -> Seq<(Seq<u8>, Seq<u8>)>
    decreases fs.len(),
{
    if fs.len() == 0 {
        seq![]
    } else {
        let rest = jobs_of_files(fs.drop_last());
        if is_sql_path(fs.last().path@) {
            rest.push((sheet_of(fs.last().path@), fs.last().contents@))
        } else {
            rest
        }
    }
}

/// The pipeline's state for one run: the configuration and the jobs in
/// discovery order.
pub struct Importer {
    pub config: Config,
    pub jobs: Vec<Job>,
}

impl Importer {
    /// Builds the run over the files the caller read: one job per SQL file,
    /// in the given order; files whose names parse as no SQL file are
    /// dropped, as discovery demands.
    pub fn new(c: Config, files: Vec<SqlFile>) -> (r: Importer)
        ensures
            r.config == c,
            jobs_view(r.jobs@) == jobs_of_files(files@),
    {
        let mut jobs: Vec<Job> = Vec::new();
        let n = files.len();
        let mut i: usize = 0;
        proof {
            assert(jobs_view(jobs@) =~= jobs_of_files(files@.take(0)));
        }
        while i < n
            invariant
                n == files@.len(),
                i <= n,
                jobs_view(jobs@) == jobs_of_files(files@.take(i as int)),
            decreases n - i,
        {
            proof {
                assert(files@.take(i as int + 1).drop_last() =~= files@.take(i as int));
                assert(files@.take(i as int + 1).last() == files@[i as int]);
            }
            let contents = clone_bytes(&files[i].contents);
            match Job::new(&files[i].path, contents) {
                Ok(j) => {
                    jobs.push(j);
                    proof {
                        assert(jobs_view(jobs@) =~= jobs_of_files(files@.take(i as int + 1)));
                    }
                },
                Err(_) => {
                    proof {
                        assert(jobs_view(jobs@) =~= jobs_of_files(files@.take(i as int + 1)));
                    }
                },
            }
            i = i + 1;
        }
        proof {
            assert(files@.take(n as int) =~= files@);
        }
        Importer { config: c, jobs }
    }
}

// ------------------------------------------------------------------
// The failure policy: database errors abort, remote errors are absorbed.
// ------------------------------------------------------------------
/// How one job's execution went: its statement failed at the database, or it
/// ran and the remote call failed, or everything succeeded.
#[derive(Debug, Clone, Copy, PartialEq, Eq, Structural)]
pub enum JobOutcome {
    DbFailed,
    RemoteFailed,
    RemoteSucceeded,
}

/// The position of the first database failure among a run's outcomes.
pub open spec fn first_db_failure(os: Seq<JobOutcome>) -> Option<int>
    decreases os.len(),
{
    if os.len() == 0 {
        None
    } else if os[0] is DbFailed {
        Some(0)
    } else {
        match first_db_failure(os.drop_first()) {
            Some(i) => Some(i + 1),
            None => None,
        }
    }
}

/// How many jobs a run executes: all of them, or every job up to and
/// including the first database failure.
pub open spec fn executed_count(os: Seq<JobOutcome>) -> int {
    match first_db_failure(os) {
        None => os.len() as int,
        Some(i) => i + 1,
    }
}

proof fn lemma_no_db_failure(os: Seq<JobOutcome>)
    requires
        forall|j: int| 0 <= j < os.len() ==> !(os[j] is DbFailed),
    ensures
        first_db_failure(os) is None,
    decreases os.len(),
{
    if os.len() > 0 {
        assert(forall|j: int| 0 <= j < os.drop_first().len() ==> os.drop_first()[j] == os[j + 1]);
        lemma_no_db_failure(os.drop_first());
    }
}

proof fn lemma_first_db_failure_at(os: Seq<JobOutcome>, i: int)
    requires
        0 <= i < os.len(),
        os[i] is DbFailed,
        forall|j: int| 0 <= j < i ==> !(os[j] is DbFailed),
    ensures
        first_db_failure(os) == Some(i),
    decreases i,
{
    if i > 0 {
        assert(forall|j: int| 0 <= j < os.drop_first().len() ==> os.drop_first()[j] == os[j + 1]);
        lemma_first_db_failure_at(os.drop_first(), i - 1);
    }
}

/// The per-job decision the pipeline takes as each outcome arrives: only a
/// database failure aborts the run, and it aborts it with the database
/// error.
pub fn job_verdict(outcome: &JobOutcome) -> (r: Option<ImporterError>)
    ensures
        r is Some <==> outcome is DbFailed,
        r is Some ==> r == Some(ImporterError::Database),
{
    match outcome {
        JobOutcome::DbFailed => Some(ImporterError::Database),
        JobOutcome::RemoteFailed => None,
        JobOutcome::RemoteSucceeded => None,
    }
}

/// Replays a whole run's outcomes: how many jobs executed, and the database
/// error exactly when a statement failed.
pub fn fold_outcomes(outcomes: &Vec<JobOutcome>) -> (r: (usize, Option<ImporterError>))
    ensures
        r.0 == executed_count(outcomes@),
        r.1 is Some <==> first_db_failure(outcomes@) is Some,
        r.1 is Some ==> r.1 == Some(ImporterError::Database),
{
    let n = outcomes.len();
    let mut i: usize = 0;
    while i < n
        invariant
            n == outcomes@.len(),
            i <= n,
            forall|j: int| 0 <= j < i ==> !(outcomes@[j] is DbFailed),
        decreases n - i,
    {
        match outcomes[i] {
            JobOutcome::DbFailed => {
                proof {
                    lemma_first_db_failure_at(outcomes@, i as int);
                }
                return (i + 1, Some(ImporterError::Database));
            },
            _ => {},
        }
        i = i + 1;
    }
    proof {
        lemma_no_db_failure(outcomes@);
    }
    (n, None)
}

/// Law: remote failures stay isolated to their job. A run whose outcomes
/// hold no database failure executes every job to the end, whatever each
/// remote call returned.
pub proof fn lemma_remote_failures_isolated(outcomes: Seq<JobOutcome>)
    requires
        forall|i: int| 0 <= i < outcomes.len() ==> !(outcomes[i] is DbFailed),
    ensures
        first_db_failure(outcomes) is None,
        executed_count(outcomes) == outcomes.len(),
{
    lemma_no_db_failure(outcomes);
}

/// Law: a database failure is fatal. The run stops with the job whose
/// statement failed, and no later job is executed.
pub proof fn lemma_db_failure_fatal(outcomes: Seq<JobOutcome>, i: int)
    requires
        0 <= i < outcomes.len(),
        outcomes[i] is DbFailed,
        forall|j: int| 0 <= j < i ==> !(outcomes[j] is DbFailed),
    ensures
        first_db_failure(outcomes) == Some(i),
        executed_count(outcomes) == i + 1,
{
    lemma_first_db_failure_at(outcomes, i);
}

} // verus!
