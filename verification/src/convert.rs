//! The converter: extraction of the two required columns from a worksheet
//! and rendering of the delimited output.
//!
//! A worksheet is given as rows of optional cell texts: `Some` holds the text
//! of a cell that can be read as text, `None` stands for a missing or
//! unreadable cell. The first row is the header; every later row is a data
//! row.

use vstd::prelude::*;
use vstd::string::{StrSliceExecFns, StringExecFns};
use crate::error::ConvertError;
use crate::trim::{trim_spec, trim_str};

verus! {

/// The name of the column holding the first output field.
pub open spec fn ep_header() -> Seq<char> {
    "ExperienceProductID"@
}

/// The name of the column holding the second output field.
pub open spec fn opt_header() -> Seq<char> {
    "OptionID"@
}

/// The fixed name of the worksheet that a run converts.
pub open spec fn sheet_name_spec() -> Seq<char> {
    "Tabelle1"@
}

/// The fixed name of the worksheet that a run converts.
pub fn sheet_name() -> (s: &'static str)
    ensures
        s@ == sheet_name_spec(),
{
    "Tabelle1"
}

/// One output record: the two extracted, trimmed cell texts of a data row.
pub struct Record {
    pub experience_product_id: String,
    pub option_id: String,
}

impl View for Record {
    type V = (Seq<char>, Seq<char>);

    open spec fn view(&self) -> (Seq<char>, Seq<char>) {
        (self.experience_product_id@, self.option_id@)
    }
}

impl DeepView for Record {
    type V = (Seq<char>, Seq<char>);

    open spec fn deep_view(&self) -> (Seq<char>, Seq<char>) {
        self.view()
    }
}

/// The index of the first cell of `header` that holds exactly `name`,
/// if any cell does.
pub open spec fn find_col(header: Seq<Option<Seq<char>>>, name: Seq<char>) -> Option<int>
    decreases header.len(),
{
    if header.len() == 0 {
        None
    } else if header[0] == Some(name) {
        Some(0int)
    } else {
        match find_col(header.drop_first(), name) {
            Some(i) => Some(i + 1),
            None => None,
        }
    }
}

/// `find_col` returns the least index whose cell holds `name`, or `None`
/// when no cell does.
pub proof fn lemma_find_col(header: Seq<Option<Seq<char>>>, name: Seq<char>)
    ensures
        match find_col(header, name) {
            Some(i) => 0 <= i < header.len() && header[i] == Some(name) && (forall|k: int|
                0 <= k < i ==> header[k] != Some(name)),
            None => forall|k: int| 0 <= k < header.len() ==> header[k] != Some(name),
        },
    decreases header.len(),
{
    if header.len() > 0 && header[0] != Some(name) {
        lemma_find_col(header.drop_first(), name);
        match find_col(header.drop_first(), name) {
            Some(i) => {
                assert(header.drop_first()[i] == header[i + 1]);
                assert forall|k: int| 0 <= k < i + 1 implies header[k] != Some(name) by {
                    if k > 0 {
                        assert(header.drop_first()[k - 1] == header[k]);
                    }
                }
            },
            None => {
                assert forall|k: int| 0 <= k < header.len() implies header[k] != Some(name) by {
                    if k > 0 {
                        assert(header.drop_first()[k - 1] == header[k]);
                    }
                }
            },
        }
    }
}

/// Decides character-for-character equality of two strings.
pub fn str_eq(a: &str, b: &str) -> (r: bool)
    ensures
        r == (a@ == b@),
{
    let an: usize = a.unicode_len();
    let bn: usize = b.unicode_len();
    if an != bn {
        return false;
    }
    let mut i: usize = 0;
    while i < an
        invariant
            an == a@.len(),
            an == b@.len(),
            0 <= i <= an,
            forall|k: int| 0 <= k < i ==> a@[k] == b@[k],
        decreases an - i,
    {
        if a.get_char(i) != b.get_char(i) {
            return false;
        }
        i = i + 1;
    }
    proof {
        assert(a@ =~= b@);
    }
    true
}

/// Finds the first cell of `header` holding exactly `name`.
pub fn find_column(header: &Vec<Option<String>>, name: &str) -> (r: Option<usize>)
    ensures
        match r {
            Some(i) => find_col(header.deep_view(), name@) == Some(i as int),
            None => find_col(header.deep_view(), name@) is None,
        },
{
    let n: usize = header.len();
    let mut i: usize = 0;
    while i < n
        invariant
            n == header@.len(),
            n == header.deep_view().len(),
            0 <= i <= n,
            forall|k: int| 0 <= k < i ==> header.deep_view()[k] != Some(name@),
        decreases n - i,
    {
        let found: bool = match &header[i] {
            Some(cell) => str_eq(cell.as_str(), name),
            None => false,
        };
        proof {
            lemma_find_col(header.deep_view(), name@);
            assert(header.deep_view()[i as int] == header@[i as int].deep_view());
        }
        if found {
            return Some(i);
        }
        i = i + 1;
    }
    proof {
        lemma_find_col(header.deep_view(), name@);
    }
    None
}

/// The pair that one data row yields: its two target cells, read as text and
/// trimmed. `None` when either target column is absent or either cell is
/// missing or unreadable.
pub open spec fn row_pair(
    row: Seq<Option<Seq<char>>>,
    ce: Option<int>,
    co: Option<int>,
) -> Option<(Seq<char>, Seq<char>)> {
    match (ce, co) {
        (Some(ci), Some(cj)) => {
            if 0 <= ci < row.len() && 0 <= cj < row.len() {
                match (row[ci], row[cj]) {
                    (Some(e), Some(o)) => Some((trim_spec(e), trim_spec(o))),
                    _ => None,
                }
            } else {
                None
            }
        },
        _ => None,
    }
}

/// The pairs of all data rows in order, or the index of the first row that
/// yields no pair.
pub open spec fn extract_rows(
    rows: Seq<Seq<Option<Seq<char>>>>,
    ce: Option<int>,
    co: Option<int>,
) -> Result<Seq<(Seq<char>, Seq<char>)>, int>
    decreases rows.len(),
{
    if rows.len() == 0 {
        Ok(Seq::empty())
    } else {
        match row_pair(rows[0], ce, co) {
            None => Err(0int),
            Some(p) => match extract_rows(rows.drop_first(), ce, co) {
                Ok(rest) => Ok(seq![p] + rest),
                Err(i) => Err(i + 1),
            },
        }
    }
}

/// `extract_rows` succeeds with one pair per row exactly when every row
/// yields a pair, and otherwise reports the first row that yields none.
pub proof fn lemma_extract_rows(
    rows: Seq<Seq<Option<Seq<char>>>>,
    ce: Option<int>,
    co: Option<int>,
)
    ensures
        match extract_rows(rows, ce, co) {
            Ok(ps) => ps.len() == rows.len() && (forall|j: int|
                0 <= j < rows.len() ==> row_pair(rows[j], ce, co) == Some(ps[j])),
            Err(i) => 0 <= i < rows.len() && row_pair(rows[i], ce, co) is None && (forall|j: int|
                0 <= j < i ==> row_pair(rows[j], ce, co) is Some),
        },
    decreases rows.len(),
{
    if rows.len() > 0 {
        lemma_extract_rows(rows.drop_first(), ce, co);
        match row_pair(rows[0], ce, co) {
            None => {},
            Some(p) => {
                assert(forall|j: int|
                    0 <= j < rows.len() - 1 ==> rows.drop_first()[j] == rows[j + 1]);
                match extract_rows(rows.drop_first(), ce, co) {
                    Ok(rest) => {
                        let ps = seq![p] + rest;
                        assert forall|j: int|
                            0 <= j < rows.len() implies row_pair(rows[j], ce, co) == Some(
                            ps[j],
                        ) by {
                            if j > 0 {
                                assert(ps[j] == rest[j - 1]);
                            }
                        }
                    },
                    Err(i) => {
                        assert(rows.drop_first()[i] == rows[i + 1]);
                        assert forall|j: int| 0 <= j < i + 1 implies row_pair(
                            rows[j],
                            ce,
                            co,
                        ) is Some by {
                            if j > 0 {
                                assert(rows.drop_first()[j - 1] == rows[j]);
                                assert(row_pair(rows.drop_first()[j - 1], ce, co) is Some);
                            }
                        }
                    },
                }
            },
        }
    }
}

/// The extraction of a whole sheet: the first row names the columns, every
/// later row yields one pair. A sheet without rows yields no pairs.
pub open spec fn extract_spec(sheet: Seq<Seq<Option<Seq<char>>>>) -> Result<
    Seq<(Seq<char>, Seq<char>)>,
    int,
> {
    if sheet.len() == 0 {
        Ok(Seq::empty())
    } else {
        extract_rows(
            sheet.drop_first(),
            find_col(sheet[0], ep_header()),
            find_col(sheet[0], opt_header()),
        )
    }
}

/// Reads the two target cells of one data row, trimming each.
fn extract_row(row: &Vec<Option<String>>, ce: &Option<usize>, co: &Option<usize>) -> (r: Option<
    Record,
>)
    ensures
        match r {
            Some(rec) => row_pair(row.deep_view(), col_view(*ce), col_view(*co)) == Some(rec@),
            None => row_pair(row.deep_view(), col_view(*ce), col_view(*co)) is None,
        },
{
    if let (Some(ci), Some(cj)) = (ce, co) {
        if *ci < row.len() && *cj < row.len() {
            proof {
                assert(row.deep_view()[*ci as int] == row@[*ci as int].deep_view());
                assert(row.deep_view()[*cj as int] == row@[*cj as int].deep_view());
            }
            if let (Some(e), Some(o)) = (&row[*ci], &row[*cj]) {
                return Some(
                    Record {
                        experience_product_id: trim_str(e.as_str()).to_owned(),
                        option_id: trim_str(o.as_str()).to_owned(),
                    },
                );
            }
        }
    }
    None
}

/// The spec counterpart of an optional column index.
pub open spec fn col_view(c: Option<usize>) -> Option<int> {
    match c {
        Some(i) => Some(i as int),
        None => None,
    }
}

/// Extracts one record per data row of `sheet`, or reports the first data
/// row whose two target cells cannot both be read.
pub fn extract_records(sheet: &Vec<Vec<Option<String>>>) -> (r: Result<Vec<Record>, ConvertError>)
    ensures
        match r {
            Ok(recs) => extract_spec(sheet.deep_view()) == Ok::<_, int>(recs.deep_view()),
            Err(e) => {
                &&& e matches ConvertError::RowDeserialization { row_index }
                &&& extract_spec(sheet.deep_view()) == Err::<Seq<(Seq<char>, Seq<char>)>, int>(
                    row_index as int,
                )
            },
        },
{
    let mut recs: Vec<Record> = Vec::new();
    if sheet.len() == 0 {
        proof {
            assert(recs.deep_view() =~= Seq::<(Seq<char>, Seq<char>)>::empty());
        }
        return Ok(recs);
    }
    let header = &sheet[0];
    let ce = find_column(header, "ExperienceProductID");
    let co = find_column(header, "OptionID");
    proof {
        assert(sheet.deep_view()[0] == sheet@[0].deep_view());
    }
    let ghost rows: Seq<Seq<Option<Seq<char>>>> = sheet.deep_view().drop_first();
    let ghost sce: Option<int> = find_col(sheet.deep_view()[0], ep_header());
    let ghost sco: Option<int> = find_col(sheet.deep_view()[0], opt_header());
    proof {
        assert(col_view(ce) == sce);
        assert(col_view(co) == sco);
    }
    let n: usize = sheet.len();
    let mut i: usize = 1;
    while i < n
        invariant
            n == sheet@.len(),
            n == sheet.deep_view().len(),
            1 <= i <= n,
            rows == sheet.deep_view().drop_first(),
            rows.len() == n - 1,
            sce == col_view(ce),
            sco == col_view(co),
            sce == find_col(sheet.deep_view()[0], ep_header()),
            sco == find_col(sheet.deep_view()[0], opt_header()),
            recs.deep_view().len() == i - 1,
            forall|j: int|
                0 <= j < i - 1 ==> row_pair(rows[j], sce, sco) == Some(recs.deep_view()[j]),
        decreases n - i,
    {
        proof {
            assert(rows[i - 1] == sheet.deep_view()[i as int]);
            assert(sheet.deep_view()[i as int] == sheet@[i as int].deep_view());
        }
        match extract_row(&sheet[i], &ce, &co) {
            Some(rec) => {
                recs.push(rec);
                proof {
                    assert(recs.deep_view().len() == i as int);
                    assert forall|j: int|
                        0 <= j < i implies row_pair(rows[j], sce, sco) == Some(
                        recs.deep_view()[j],
                    ) by {
                        assert(recs.deep_view()[j] == recs@[j].deep_view());
                    }
                }
            },
            None => {
                proof {
                    lemma_extract_rows(rows, sce, sco);
                }
                return Err(ConvertError::RowDeserialization { row_index: i - 1 });
            },
        }
        i = i + 1;
    }
    proof {
        lemma_extract_rows(rows, sce, sco);
        match extract_rows(rows, sce, sco) {
            Ok(ps) => {
                assert(ps =~= recs.deep_view());
            },
            Err(_) => {},
        }
    }
    Ok(recs)
}

/// Relies on String::push: appends the given character to the end of the
/// string.
pub assume_specification[ String::push ](s: &mut String, ch: char)
    ensures
        final(s)@ == old(s)@.push(ch),
;

/// The first line of every output: the two column names joined by the
/// delimiter.
pub open spec fn header_line(d: char) -> Seq<char> {
    ep_header() + seq![d] + opt_header()
}

/// The output text of one record: a line terminator, then the two fields
/// joined by the delimiter.
pub open spec fn record_line(p: (Seq<char>, Seq<char>), d: char) -> Seq<char> {
    seq!['\n'] + p.0 + seq![d] + p.1
}

/// The output text of all records in order.
pub open spec fn render_rows(ps: Seq<(Seq<char>, Seq<char>)>, d: char) -> Seq<char>
    decreases ps.len(),
{
    if ps.len() == 0 {
        Seq::empty()
    } else {
        record_line(ps[0], d) + render_rows(ps.drop_first(), d)
    }
}

/// The whole output text: the header line, then one line per record, with
/// no line terminator after the last line.
pub open spec fn render_spec(ps: Seq<(Seq<char>, Seq<char>)>, d: char) -> Seq<char> {
    header_line(d) + render_rows(ps, d)
}

/// Rendering one more record appends exactly one more line.
pub proof fn lemma_render_rows_snoc(
    ps: Seq<(Seq<char>, Seq<char>)>,
    p: (Seq<char>, Seq<char>),
    d: char,
)
    ensures
        render_rows(ps.push(p), d) == render_rows(ps, d) + record_line(p, d),
    decreases ps.len(),
{
    if ps.len() == 0 {
        assert(ps.push(p)[0] == p);
        assert(ps.push(p).drop_first() =~= ps);
        assert(render_rows(ps.push(p), d) == record_line(p, d) + render_rows(ps, d));
        assert(record_line(p, d) + render_rows(ps, d) =~= render_rows(ps, d) + record_line(p, d));
    } else {
        lemma_render_rows_snoc(ps.drop_first(), p, d);
        assert(ps.push(p).drop_first() =~= ps.drop_first().push(p));
        assert(ps.push(p)[0] == ps[0]);
        assert((record_line(ps[0], d) + render_rows(ps.drop_first(), d)) + record_line(p, d)
            =~= record_line(ps[0], d) + (render_rows(ps.drop_first(), d) + record_line(p, d)));
    }
}

/// Renders the output text for `records`: the header line, then one line
/// per record, joined fields, no trailing line terminator.
pub fn render_output(records: &Vec<Record>, delimiter: char) -> (out: String)
    ensures
        out@ == render_spec(records.deep_view(), delimiter),
{
    let mut out: String = String::from_str("ExperienceProductID");
    out.push(delimiter);
    out.append("OptionID");
    proof {
        assert(out@ =~= header_line(delimiter));
    }
    let n: usize = records.len();
    let mut i: usize = 0;
    while i < n
        invariant
            n == records@.len(),
            n == records.deep_view().len(),
            0 <= i <= n,
            out@ == header_line(delimiter) + render_rows(
                records.deep_view().take(i as int),
                delimiter,
            ),
        decreases n - i,
    {
        let rec = &records[i];
        out.push('\n');
        out.append(rec.experience_product_id.as_str());
        out.push(delimiter);
        out.append(rec.option_id.as_str());
        proof {
            let ps = records.deep_view();
            assert(ps[i as int] == records@[i as int].deep_view());
            lemma_render_rows_snoc(ps.take(i as int), ps[i as int], delimiter);
            assert(ps.take(i as int + 1) =~= ps.take(i as int).push(ps[i as int]));
            assert(out@ =~= header_line(delimiter) + render_rows(
                ps.take(i as int + 1),
                delimiter,
            ));
        }
        i = i + 1;
    }
    proof {
        assert(records.deep_view().take(n as int) =~= records.deep_view());
    }
    out
}

/// The whole conversion of a worksheet: extraction of the two target
/// columns of every data row, then rendering. `Err` carries the index of
/// the first data row whose two target cells cannot both be read.
pub open spec fn convert_spec(sheet: Seq<Seq<Option<Seq<char>>>>, d: char) -> Result<
    Seq<char>,
    int,
> {
    match extract_spec(sheet) {
        Ok(ps) => Ok(render_spec(ps, d)),
        Err(i) => Err(i),
    }
}

/// Converts one worksheet into the delimited output text.
///
/// The first row of `sheet` is the header; each later row contributes one
/// output line holding its two target cells, read as text and trimmed. The
/// output starts with the fixed header line and never ends in a line
/// terminator.
pub fn convert_sheet(sheet: &Vec<Vec<Option<String>>>, delimiter: char) -> (r: Result<
    String,
    ConvertError,
>)
    ensures
        match r {
            Ok(out) => convert_spec(sheet.deep_view(), delimiter) == Ok::<_, int>(out@),
            Err(e) => {
                &&& e matches ConvertError::RowDeserialization { row_index }
                &&& convert_spec(sheet.deep_view(), delimiter) == Err::<Seq<char>, int>(
                    row_index as int,
                )
            },
        },
{
    match extract_records(sheet) {
        Ok(recs) => Ok(render_output(&recs, delimiter)),
        Err(e) => Err(e),
    }
}

/// The index of the first name in `names` that is exactly `target`, if any.
pub open spec fn find_name(names: Seq<Seq<char>>, target: Seq<char>) -> Option<int>
    decreases names.len(),
{
    if names.len() == 0 {
        None
    } else if names[0] == target {
        Some(0int)
    } else {
        match find_name(names.drop_first(), target) {
            Some(i) => Some(i + 1),
            None => None,
        }
    }
}

/// `find_name` returns the least index holding `target`, or `None` when no
/// name is `target`.
pub proof fn lemma_find_name(names: Seq<Seq<char>>, target: Seq<char>)
    ensures
        match find_name(names, target) {
            Some(i) => 0 <= i < names.len() && names[i] == target && (forall|k: int|
                0 <= k < i ==> names[k] != target),
            None => forall|k: int| 0 <= k < names.len() ==> names[k] != target,
        },
    decreases names.len(),
{
    if names.len() > 0 && names[0] != target {
        lemma_find_name(names.drop_first(), target);
        match find_name(names.drop_first(), target) {
            Some(i) => {
                assert(names.drop_first()[i] == names[i + 1]);
                assert forall|k: int| 0 <= k < i + 1 implies names[k] != target by {
                    if k > 0 {
                        assert(names.drop_first()[k - 1] == names[k]);
                    }
                }
            },
            None => {
                assert forall|k: int| 0 <= k < names.len() implies names[k] != target by {
                    if k > 0 {
                        assert(names.drop_first()[k - 1] == names[k]);
                    }
                }
            },
        }
    }
}

/// Finds the worksheet that a run converts: the first sheet whose name is
/// exactly the fixed required name.
pub fn select_sheet(names: &Vec<String>) -> (r: Option<usize>)
    ensures
        match r {
            Some(i) => find_name(names.deep_view(), sheet_name_spec()) == Some(i as int),
            None => find_name(names.deep_view(), sheet_name_spec()) is None,
        },
{
    let n: usize = names.len();
    let mut i: usize = 0;
    while i < n
        invariant
            n == names@.len(),
            n == names.deep_view().len(),
            0 <= i <= n,
            forall|k: int| 0 <= k < i ==> names.deep_view()[k] != sheet_name_spec(),
        decreases n - i,
    {
        let found: bool = str_eq(names[i].as_str(), "Tabelle1");
        proof {
            lemma_find_name(names.deep_view(), sheet_name_spec());
            assert(names.deep_view()[i as int] == names@[i as int].deep_view());
        }
        if found {
            return Some(i);
        }
        i = i + 1;
    }
    proof {
        lemma_find_name(names.deep_view(), sheet_name_spec());
    }
    None
}

} // verus!
