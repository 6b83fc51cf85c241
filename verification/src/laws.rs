//! The laws the converter obeys, stated and proved once for all inputs.
//!
//! Each proof function here states one property of the conversion: the
//! output's line count, its fixed header line, the absence of a trailing
//! line terminator, and the round trip from rendered output back to the
//! extracted pairs.

use vstd::prelude::*;
use crate::convert::{
    convert_spec, ep_header, extract_spec, find_col, header_line, opt_header, record_line,
    render_rows, render_spec, row_pair, lemma_extract_rows,
};
use crate::trim::{lemma_trim_ends, trim_spec};
use crate::whitespace::is_ws;

verus! {

/// The number of occurrences of `c` in `s`.
pub open spec fn count_char(s: Seq<char>, c: char) -> int
    decreases s.len(),
{
    if s.len() == 0 {
        0
    } else {
        count_char(s.drop_first(), c) + if s[0] == c {
            1int
        } else {
            0int
        }
    }
}

/// Counting distributes over concatenation.
pub proof fn lemma_count_char_concat(a: Seq<char>, b: Seq<char>, c: char)
    ensures
        count_char(a + b, c) == count_char(a, c) + count_char(b, c),
    decreases a.len(),
{
    if a.len() == 0 {
        assert(a + b =~= b);
    } else {
        lemma_count_char_concat(a.drop_first(), b, c);
        assert((a + b)[0] == a[0]);
        assert((a + b).drop_first() =~= a.drop_first() + b);
    }
}

/// A text free of `c` has no occurrence of `c`.
pub proof fn lemma_count_char_zero(s: Seq<char>, c: char)
    requires
        forall|k: int| 0 <= k < s.len() ==> s[k] != c,
    ensures
        count_char(s, c) == 0,
    decreases s.len(),
{
    if s.len() > 0 {
        assert(forall|k: int| 0 <= k < s.drop_first().len() ==> s.drop_first()[k] == s[k + 1]);
        lemma_count_char_zero(s.drop_first(), c);
    }
}

/// The index of the first occurrence of `c` in `s`, or `s.len()` when `s`
/// is free of `c`.
pub open spec fn find_char(s: Seq<char>, c: char) -> int
    decreases s.len(),
{
    if s.len() == 0 {
        0
    } else if s[0] == c {
        0
    } else {
        1 + find_char(s.drop_first(), c)
    }
}

/// `find_char` is the least index holding `c`, or the length.
pub proof fn lemma_find_char(s: Seq<char>, c: char)
    ensures
        0 <= find_char(s, c) <= s.len(),
        forall|k: int| 0 <= k < find_char(s, c) ==> s[k] != c,
        find_char(s, c) < s.len() ==> s[find_char(s, c)] == c,
    decreases s.len(),
{
    if s.len() > 0 && s[0] != c {
        lemma_find_char(s.drop_first(), c);
        assert forall|k: int| 0 <= k < find_char(s, c) implies s[k] != c by {
            if k > 0 {
                assert(s.drop_first()[k - 1] == s[k]);
            }
        }
        if find_char(s, c) < s.len() {
            assert(s.drop_first()[find_char(s, c) - 1] == s[find_char(s, c)]);
        }
    }
}

/// The first occurrence of `c` after a prefix free of `c` is the first
/// occurrence in the rest.
pub proof fn lemma_find_char_concat(a: Seq<char>, b: Seq<char>, c: char)
    requires
        forall|k: int| 0 <= k < a.len() ==> a[k] != c,
    ensures
        find_char(a + b, c) == a.len() + find_char(b, c),
    decreases a.len(),
{
    if a.len() == 0 {
        assert(a + b =~= b);
    } else {
        assert(forall|k: int|
            0 <= k < a.drop_first().len() ==> a.drop_first()[k] == a[k + 1]);
        lemma_find_char_concat(a.drop_first(), b, c);
        assert((a + b)[0] == a[0]);
        assert((a + b).drop_first() =~= a.drop_first() + b);
    }
}

/// A field of rendered output is clean when it holds neither a line
/// terminator nor the delimiter, so that parsing cannot split it.
pub open spec fn field_clean(f: Seq<char>, d: char) -> bool {
    forall|k: int| 0 <= k < f.len() ==> f[k] != '\n' && f[k] != d
}

/// All fields of all pairs are clean.
pub open spec fn fields_clean(ps: Seq<(Seq<char>, Seq<char>)>, d: char) -> bool {
    forall|j: int| 0 <= j < ps.len() ==> field_clean(ps[j].0, d) && field_clean(ps[j].1, d)
}

/// Splits one output line at the delimiter into its two fields; `None`
/// when the line does not hold exactly two fields.
pub open spec fn parse_line(line: Seq<char>, d: char) -> Option<(Seq<char>, Seq<char>)> {
    let i = find_char(line, d);
    if i == line.len() {
        None
    } else {
        let e = line.take(i);
        let o = line.skip(i + 1);
        if find_char(o, d) == o.len() {
            Some((e, o))
        } else {
            None
        }
    }
}

/// Parses the data part of an output text: a sequence of lines, each
/// introduced by a line terminator and holding one pair.
pub open spec fn parse_rows(s: Seq<char>, d: char) -> Option<Seq<(Seq<char>, Seq<char>)>>
    decreases s.len(),
{
    if s.len() == 0 {
        Some(Seq::empty())
    } else if s[0] != '\n' {
        None
    } else {
        let body = s.drop_first();
        let j0 = find_char(body, '\n');
        let j = if 0 <= j0 <= body.len() {
            j0
        } else {
            0
        };
        match parse_line(body.take(j), d) {
            None => None,
            Some(p) => match parse_rows(body.skip(j), d) {
                None => None,
                Some(rest) => Some(seq![p] + rest),
            },
        }
    }
}

/// Parses a whole output text: the fixed header line, then the data lines.
pub open spec fn parse_output(s: Seq<char>, d: char) -> Option<Seq<(Seq<char>, Seq<char>)>> {
    let hl = header_line(d);
    if s.len() >= hl.len() && s.take(hl.len() as int) == hl {
        parse_rows(s.skip(hl.len() as int), d)
    } else {
        None
    }
}

/// Law: parsing the rendered data lines recovers exactly the rendered
/// pairs, in order, when no field holds the delimiter or a line terminator.
pub proof fn lemma_parse_render_rows(ps: Seq<(Seq<char>, Seq<char>)>, d: char)
    requires
        d != '\n',
        fields_clean(ps, d),
    ensures
        parse_rows(render_rows(ps, d), d) == Some(ps),
    decreases ps.len(),
{
    if ps.len() == 0 {
        assert(render_rows(ps, d).len() == 0);
        assert(Seq::<(Seq<char>, Seq<char>)>::empty() =~= ps);
    } else {
        let p = ps[0];
        let e = p.0;
        let o = p.1;
        let rest = ps.drop_first();
        assert(forall|j: int| 0 <= j < rest.len() ==> rest[j] == ps[j + 1]);
        lemma_parse_render_rows(rest, d);
        let s = render_rows(ps, d);
        let rr = render_rows(rest, d);
        let line = e + seq![d] + o;
        assert(s == record_line(p, d) + rr);
        assert(s =~= seq!['\n'] + (line + rr));
        assert(s[0] == '\n');
        let body = s.drop_first();
        assert(body =~= line + rr);
        assert forall|k: int| 0 <= k < line.len() implies line[k] != '\n' by {
            if k < e.len() {
                assert(line[k] == e[k]);
            } else if k == e.len() {
                assert(line[k] == d);
            } else {
                assert(line[k] == o[k - e.len() - 1]);
            }
        }
        lemma_find_char_concat(line, rr, '\n');
        if rest.len() == 0 {
            assert(rr.len() == 0);
        } else {
            assert(rr == record_line(rest[0], d) + render_rows(rest.drop_first(), d));
            assert(rr[0] == '\n');
        }
        assert(find_char(rr, '\n') == 0);
        let j = line.len() as int;
        assert(find_char(body, '\n') == j);
        assert(body.take(j) =~= line);
        assert(body.skip(j) =~= rr);
        // the line splits at the delimiter into exactly the two fields
        assert(line =~= e + (seq![d] + o));
        assert(forall|k: int| 0 <= k < e.len() ==> e[k] != d);
        lemma_find_char_concat(e, seq![d] + o, d);
        assert((seq![d] + o)[0] == d);
        assert(find_char(line, d) == e.len());
        assert(e.len() < line.len());
        assert(line.take(e.len() as int) =~= e);
        assert(line.skip(e.len() as int + 1) =~= o);
        lemma_find_char(o, d);
        assert(find_char(o, d) == o.len());
        assert(parse_line(line, d) == Some((e, o)));
        assert(parse_rows(rr, d) == Some(rest));
        assert(parse_rows(s, d) == Some(seq![p] + rest));
        assert(seq![p] + rest =~= ps);
    }
}

/// Law: parsing a rendered output with the same delimiter recovers the
/// same ordered pairs, when no field holds the delimiter or a line
/// terminator.
pub proof fn lemma_round_trip(ps: Seq<(Seq<char>, Seq<char>)>, d: char)
    requires
        d != '\n',
        fields_clean(ps, d),
    ensures
        parse_output(render_spec(ps, d), d) == Some(ps),
{
    let s = render_spec(ps, d);
    let hl = header_line(d);
    assert(s.len() >= hl.len()) by {
        assert(s == hl + render_rows(ps, d));
    }
    assert(s.take(hl.len() as int) =~= hl);
    assert(s.skip(hl.len() as int) =~= render_rows(ps, d));
    lemma_parse_render_rows(ps, d);
}

/// Law: parsing the output of a successful conversion recovers the same
/// ordered pairs as stand in the source sheet's data rows, modulo
/// whitespace trimming, when no trimmed field holds the delimiter or a
/// line terminator.
pub proof fn lemma_convert_round_trip(
    sheet: Seq<Seq<Option<Seq<char>>>>,
    ps: Seq<(Seq<char>, Seq<char>)>,
    d: char,
)
    requires
        d != '\n',
        extract_spec(sheet) == Ok::<_, int>(ps),
        fields_clean(ps, d),
    ensures
        convert_spec(sheet, d) == Ok::<_, int>(render_spec(ps, d)),
        parse_output(render_spec(ps, d), d) == Some(ps),
{
    lemma_round_trip(ps, d);
}

/// The data part of the output holds exactly one line terminator per pair.
pub proof fn lemma_render_rows_count(ps: Seq<(Seq<char>, Seq<char>)>, d: char)
    requires
        d != '\n',
        fields_clean(ps, d),
    ensures
        count_char(render_rows(ps, d), '\n') == ps.len(),
    decreases ps.len(),
{
    if ps.len() > 0 {
        let rest = ps.drop_first();
        assert(forall|j: int| 0 <= j < rest.len() ==> rest[j] == ps[j + 1]);
        lemma_render_rows_count(rest, d);
        let p = ps[0];
        let line = record_line(p, d);
        lemma_count_char_concat(line, render_rows(rest, d), '\n');
        assert(line =~= seq!['\n'] + (p.0 + (seq![d] + p.1)));
        lemma_count_char_concat(seq!['\n'], p.0 + (seq![d] + p.1), '\n');
        lemma_count_char_concat(p.0, seq![d] + p.1, '\n');
        lemma_count_char_concat(seq![d], p.1, '\n');
        lemma_count_char_zero(p.0, '\n');
        lemma_count_char_zero(p.1, '\n');
        lemma_count_char_zero(seq![d], '\n');
        assert(count_char(seq!['\n'], '\n') == 1) by {
            assert(count_char(Seq::<char>::empty(), '\n') == 0);
            assert(seq!['\n'].drop_first() =~= Seq::<char>::empty());
        }
    }
}

/// The header line holds no line terminator.
pub proof fn lemma_header_newline_free(d: char)
    requires
        d != '\n',
    ensures
        count_char(header_line(d), '\n') == 0,
{
    reveal_strlit("ExperienceProductID");
    reveal_strlit("OptionID");
    assert forall|k: int| 0 <= k < header_line(d).len() implies header_line(d)[k] != '\n' by {
        let hl = header_line(d);
        if k < ep_header().len() {
            assert(hl[k] == ep_header()[k]);
        } else if k == ep_header().len() {
            assert(hl[k] == d);
        } else {
            assert(hl[k] == opt_header()[k - ep_header().len() - 1]);
        }
    }
    lemma_count_char_zero(header_line(d), '\n');
}

/// Law: a successful conversion yields exactly one output data line per
/// data row of the source sheet: the output holds one line terminator per
/// data row and none in its header line, when no trimmed field holds a
/// line terminator or the delimiter.
pub proof fn lemma_line_count(sheet: Seq<Seq<Option<Seq<char>>>>, ps: Seq<(Seq<char>, Seq<char>)>, d: char)
    requires
        d != '\n',
        extract_spec(sheet) == Ok::<_, int>(ps),
        fields_clean(ps, d),
    ensures
        convert_spec(sheet, d) == Ok::<_, int>(render_spec(ps, d)),
        count_char(render_spec(ps, d), '\n') == ps.len(),
        ps.len() == if sheet.len() == 0 { 0int } else { sheet.len() - 1 },
{
    lemma_count_char_concat(header_line(d), render_rows(ps, d), '\n');
    lemma_header_newline_free(d);
    lemma_render_rows_count(ps, d);
    if sheet.len() > 0 {
        lemma_extract_rows(
            sheet.drop_first(),
            find_col(sheet[0], ep_header()),
            find_col(sheet[0], opt_header()),
        );
    }
}

/// Law: the output of a successful conversion always starts with exactly
/// the fixed header line, the two column names joined by the delimiter,
/// whatever the input's column order.
pub proof fn lemma_header_prefix(
    sheet: Seq<Seq<Option<Seq<char>>>>,
    ps: Seq<(Seq<char>, Seq<char>)>,
    d: char,
)
    requires
        extract_spec(sheet) == Ok::<_, int>(ps),
    ensures
        convert_spec(sheet, d) == Ok::<_, int>(render_spec(ps, d)),
        render_spec(ps, d).take(header_line(d).len() as int) == header_line(d),
        header_line(d) == ep_header() + seq![d] + opt_header(),
{
    assert(render_spec(ps, d).take(header_line(d).len() as int) =~= header_line(d));
}

/// Every pair a sheet yields is trimmed: neither field starts or ends in
/// whitespace.
pub proof fn lemma_extract_trimmed(
    sheet: Seq<Seq<Option<Seq<char>>>>,
    ps: Seq<(Seq<char>, Seq<char>)>,
)
    requires
        extract_spec(sheet) == Ok::<_, int>(ps),
    ensures
        forall|j: int| #![trigger ps[j]]
            0 <= j < ps.len() ==> ((ps[j].0.len() > 0 ==> !is_ws(ps[j].0.last())) && (ps[j].1.len()
                > 0 ==> !is_ws(ps[j].1.last()))),
{
    if sheet.len() > 0 {
        let rows = sheet.drop_first();
        let ce = find_col(sheet[0], ep_header());
        let co = find_col(sheet[0], opt_header());
        lemma_extract_rows(rows, ce, co);
        assert forall|j: int| 0 <= j < ps.len() implies ((ps[j].0.len() > 0 ==> !is_ws(
            ps[j].0.last(),
        )) && (ps[j].1.len() > 0 ==> !is_ws(ps[j].1.last()))) by {
            assert(row_pair(rows[j], ce, co) == Some(ps[j]));
            let row = rows[j];
            match (ce, co) {
                (Some(ci), Some(cj)) => {
                    match (row[ci], row[cj]) {
                        (Some(e), Some(o)) => {
                            lemma_trim_ends(e);
                            lemma_trim_ends(o);
                            assert(ps[j] == (trim_spec(e), trim_spec(o)));
                        },
                        _ => {},
                    }
                },
                _ => {},
            }
        }
    }
}

/// The last character of the rendered data lines: the last field's last
/// character, or the delimiter when that field is empty.
pub proof fn lemma_render_rows_last(ps: Seq<(Seq<char>, Seq<char>)>, d: char)
    requires
        ps.len() > 0,
    ensures
        render_rows(ps, d).len() > 0,
        render_rows(ps, d).last() == if ps.last().1.len() > 0 {
            ps.last().1.last()
        } else {
            d
        },
    decreases ps.len(),
{
    let p = ps[0];
    let rest = ps.drop_first();
    if ps.len() == 1 {
        assert(render_rows(rest, d).len() == 0);
        assert(render_rows(ps, d) =~= record_line(p, d));
        assert(ps.last() == p);
        if p.1.len() > 0 {
            assert(record_line(p, d).last() == p.1.last());
        } else {
            assert(record_line(p, d) =~= seq!['\n'] + p.0 + seq![d]);
            assert(record_line(p, d).last() == d);
        }
    } else {
        lemma_render_rows_last(rest, d);
        assert(render_rows(ps, d) == record_line(p, d) + render_rows(rest, d));
        assert(render_rows(ps, d).last() == render_rows(rest, d).last());
        assert(rest.last() == ps.last());
    }
}

/// Law: the output of a successful conversion never ends in a line
/// terminator.
pub proof fn lemma_no_trailing_newline(
    sheet: Seq<Seq<Option<Seq<char>>>>,
    ps: Seq<(Seq<char>, Seq<char>)>,
    d: char,
)
    requires
        d != '\n',
        extract_spec(sheet) == Ok::<_, int>(ps),
    ensures
        convert_spec(sheet, d) == Ok::<_, int>(render_spec(ps, d)),
        render_spec(ps, d).len() > 0,
        render_spec(ps, d).last() != '\n',
{
    let out = render_spec(ps, d);
    let hl = header_line(d);
    assert(out == hl + render_rows(ps, d));
    if ps.len() == 0 {
        assert(render_rows(ps, d).len() == 0);
        assert(out =~= hl);
        reveal_strlit("OptionID");
        reveal_strlit("ExperienceProductID");
        assert(opt_header().len() == 8);
        assert(hl.last() == opt_header().last());
        assert(opt_header().last() == 'D');
    } else {
        lemma_render_rows_last(ps, d);
        assert(out.last() == render_rows(ps, d).last());
        lemma_extract_trimmed(sheet, ps);
        assert(is_ws('\n'));
        if ps.last().1.len() > 0 {
            assert(ps.last() == ps[ps.len() - 1]);
            assert(!is_ws(ps.last().1.last()));
        }
    }
}

/// Law: a sheet without data rows converts to exactly the header line,
/// with no trailing line terminator.
pub proof fn lemma_header_only(sheet: Seq<Seq<Option<Seq<char>>>>, d: char)
    requires
        sheet.len() <= 1,
    ensures
        convert_spec(sheet, d) == Ok::<_, int>(header_line(d)),
{
    if sheet.len() == 1 {
        assert(sheet.drop_first().len() == 0);
    }
    match extract_spec(sheet) {
        Ok(ps) => {
            assert(ps =~= Seq::<(Seq<char>, Seq<char>)>::empty());
            assert(render_rows(ps, d).len() == 0);
            assert(render_spec(ps, d) =~= header_line(d));
        },
        Err(_) => {
            assert(false);
        },
    }
}

/// Law: each output field is exactly the text of its source cell, the one
/// under the matching named header column, with leading and trailing
/// whitespace removed.
pub proof fn lemma_fields_are_trimmed_cells(
    sheet: Seq<Seq<Option<Seq<char>>>>,
    ps: Seq<(Seq<char>, Seq<char>)>,
    j: int,
)
    requires
        extract_spec(sheet) == Ok::<_, int>(ps),
        0 <= j < ps.len(),
    ensures
        sheet.len() > 0,
        ({
            let ce = find_col(sheet[0], ep_header());
            let co = find_col(sheet[0], opt_header());
            let row = sheet[j + 1];
            &&& ce is Some
            &&& co is Some
            &&& 0 <= ce->0 < row.len()
            &&& 0 <= co->0 < row.len()
            &&& row[ce->0] is Some
            &&& row[co->0] is Some
            &&& ps[j].0 == trim_spec(row[ce->0]->0)
            &&& ps[j].1 == trim_spec(row[co->0]->0)
        }),
{
    let rows = sheet.drop_first();
    let ce = find_col(sheet[0], ep_header());
    let co = find_col(sheet[0], opt_header());
    lemma_extract_rows(rows, ce, co);
    assert(row_pair(rows[j], ce, co) == Some(ps[j]));
    assert(rows[j] == sheet[j + 1]);
    let row = sheet[j + 1];
    match (ce, co) {
        (Some(ci), Some(cj)) => {
            match (row[ci], row[cj]) {
                (Some(e), Some(o)) => {
                    assert(ps[j] == (trim_spec(e), trim_spec(o)));
                },
                _ => {},
            }
        },
        _ => {},
    }
}

} // verus!
