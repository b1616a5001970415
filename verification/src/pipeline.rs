//! The full document pipeline: table discovery, row extraction, and
//! formatting.
//!
//! Table regions are the spans between a case-insensitive `<table` marker
//! and the nearest following `</table>`; scanning resumes after each
//! region. A dangling opening marker without its closing marker is
//! discarded. When nothing is emitted, the output is a literal
//! informational message.

use vstd::prelude::*;
use vstd::string::StringExecFns;
use crate::chars::chars_to_string;
use crate::chars::str_to_chars;
use crate::chars::subvec;
use crate::extract::row_views;
use crate::extract::rows_from;
use crate::extract::spec_rows;
use crate::extract::str_views;
use crate::format::format_row_chars;
use crate::format::spec_format_row;
use crate::format::push_all;
use crate::options::CsvOptions;
use crate::options::OptionsV;
use crate::options::default_options;
use crate::scan::find_from;
use crate::scan::pat_table;
use crate::scan::pat_table_close;
use crate::scan::pat_table_close_vec;
use crate::scan::pat_table_vec;
use crate::scan::spec_find;

verus! {

/// The informational output when no rows were emitted: the text
/// `No tables found in the HTML`.
pub open spec fn no_tables_msg() -> Seq<char> {
    seq![
        'N', 'o', ' ', 't', 'a', 'b', 'l', 'e', 's', ' ', 'f', 'o', 'u', 'n', 'd', ' ', 'i', 'n',
        ' ', 't', 'h', 'e', ' ', 'H', 'T', 'M', 'L',
    ]
}

/// The formatted, newline-terminated lines of the given rows, in order; a
/// row without cells yields nothing.
pub open spec fn spec_row_lines(rows: Seq<Seq<Seq<char>>>, opts: OptionsV) -> Seq<char>
    decreases rows.len(),
{
    if rows.len() == 0 {
        Seq::empty()
    } else {
        (if rows[0].len() > 0 {
            spec_format_row(rows[0], opts) + seq!['\n']
        } else {
            Seq::<char>::empty()
        }) + spec_row_lines(rows.drop_first(), opts)
    }
}

/// The rows of a table kept for output: all of them, or all but the first
/// when headers are suppressed.
pub open spec fn spec_kept_rows(rows: Seq<Seq<Seq<char>>>, opts: OptionsV) -> Seq<Seq<Seq<char>>> {
    if opts.no_header && rows.len() > 0 {
        rows.drop_first()
    } else {
        rows
    }
}

/// The formatted output of one table span: its rows after optional header
/// suppression, each formatted and newline-terminated.
pub open spec fn spec_table_csv(table: Seq<char>, opts: OptionsV) -> Seq<char> {
    spec_row_lines(spec_kept_rows(spec_rows(table, 0), opts), opts)
}

/// The concatenated output of every table region of `text` at or after
/// `pos`, in document order. A region runs from a `<table` marker to the
/// nearest following `</table>`; an opening marker without a closing one
/// is discarded and ends the scan.
pub open spec fn spec_csv_body(text: Seq<char>, pos: int, opts: OptionsV) -> Seq<char>
    decreases text.len() - pos
        when 0 <= pos
        via spec_csv_body_dec
{
    match spec_find(text, pat_table(), pos) {
        None => Seq::empty(),
        Some(ts) => match spec_find(text, pat_table_close(), ts) {
            None => Seq::empty(),
            Some(tc) => spec_table_csv(text.subrange(ts, tc + 8), opts) + spec_csv_body(
                text,
                tc + 8,
                opts,
            ),
        },
    }
}

#[via_fn]
proof fn spec_csv_body_dec(text: Seq<char>, pos: int, opts: OptionsV) {
    crate::scan::lemma_find_props(text, pat_table(), pos);
    match spec_find(text, pat_table(), pos) {
        None => {},
        Some(ts) => {
            crate::scan::lemma_find_props(text, pat_table_close(), ts);
        },
    }
}

/// The entire output for a document: the formatted rows of every table
/// region, or the informational message when nothing was emitted.
pub open spec fn spec_extract(text: Seq<char>, opts: OptionsV) -> Seq<char> {
    let body = spec_csv_body(text, 0, opts);
    if body.len() == 0 {
        no_tables_msg()
    } else {
        body
    }
}

/// The output of one table given its extracted rows.
pub open spec fn spec_table_csv_of_rows(rows: Seq<Seq<Seq<char>>>, opts: OptionsV) -> Seq<char> {
    spec_row_lines(spec_kept_rows(rows, opts), opts)
}

/// Emits the kept rows of one table span onto `out`, one formatted,
/// newline-terminated line per row with cells.
fn emit_table(out: &mut Vec<char>, rows: &Vec<Vec<String>>, options: &CsvOptions)
    ensures
        final(out)@ == old(out)@ + spec_table_csv_of_rows(row_views(rows@), options@),
{
    let mut j: usize = if options.no_header && rows.len() > 0 {
        1
    } else {
        0
    };
    let rows_len = rows.len();
    proof {
        assert(row_views(rows@).len() == rows@.len());
        assert(row_views(rows@).skip(j as int) =~= spec_kept_rows(row_views(rows@), options@));
        assert(out@ + spec_row_lines(row_views(rows@).skip(j as int), options@)
            =~= old(out)@ + spec_table_csv_of_rows(row_views(rows@), options@));
    }
    while j < rows_len
        invariant
            j <= rows@.len(),
            rows@.len() == rows_len,
            out@ + spec_row_lines(row_views(rows@).skip(j as int), options@) == old(out)@
                + spec_table_csv_of_rows(row_views(rows@), options@),
        decreases rows@.len() - j,
    {
        proof {
            assert(row_views(rows@).skip(j as int)[0] == str_views(rows@[j as int]@));
            assert(row_views(rows@).skip(j as int).drop_first() =~= row_views(rows@).skip(j + 1));
            assert(str_views(rows@[j as int]@).len() == rows@[j as int]@.len());
        }
        let ghost prev = out@;
        if rows[j].len() > 0 {
            let line = format_row_chars(&rows[j], options);
            push_all(out, &line);
            out.push('\n');
            proof {
                assert(spec_row_lines(row_views(rows@).skip(j as int), options@)
                    == spec_format_row(str_views(rows@[j as int]@), options@) + seq!['\n']
                    + spec_row_lines(row_views(rows@).skip(j + 1), options@));
                assert(out@ + spec_row_lines(row_views(rows@).skip(j + 1), options@) =~= prev
                    + spec_row_lines(row_views(rows@).skip(j as int), options@));
            }
        } else {
            proof {
                assert(spec_row_lines(row_views(rows@).skip(j as int), options@) == spec_row_lines(
                    row_views(rows@).skip(j + 1),
                    options@,
                ));
            }
        }
        j = j + 1;
    }
    proof {
        assert(row_views(rows@).skip(rows@.len() as int) =~= Seq::<Seq<Seq<char>>>::empty());
        assert(out@ + Seq::<char>::empty() =~= out@);
    }
}

/// Converts every table of the document to delimited text under the given
/// configuration. Never fails: malformed markup degrades to partial or
/// empty results, and when no row is emitted the output is the literal
/// informational message.
pub fn extract_table_from_html_with_options(html: &str, options: CsvOptions) -> (r: Result<
    String,
    String,
>)
    ensures
        r is Ok,
        r->Ok_0@ == spec_extract(html@, options@),
{
    let text = str_to_chars(html);
    let open_pat = pat_table_vec();
    let close_pat = pat_table_close_vec();
    let text_len = text.len();
    let mut out: Vec<char> = Vec::new();
    let mut pos: usize = 0;
    let mut done: bool = false;
    proof {
        assert(Seq::<char>::empty() + spec_csv_body(text@, 0, options@) =~= spec_csv_body(
            text@,
            0,
            options@,
        ));
    }
    while !done
        invariant
            pos <= text@.len(),
            text@.len() == text_len,
            open_pat@ == pat_table(),
            close_pat@ == pat_table_close(),
            spec_csv_body(text@, 0, options@) == out@ + (if done {
                Seq::<char>::empty()
            } else {
                spec_csv_body(text@, pos as int, options@)
            }),
        decreases text@.len() - pos + (if done {
            0int
        } else {
            1int
        }),
    {
        let ts = find_from(&text, &open_pat, pos);
        match ts {
            None => {
                done = true;
                proof {
                    assert(out@ + Seq::<char>::empty() =~= out@);
                }
            },
            Some(t0) => {
                let tc = find_from(&text, &close_pat, t0);
                match tc {
                    None => {
                        done = true;
                        proof {
                            assert(out@ + Seq::<char>::empty() =~= out@);
                        }
                    },
                    Some(tc0) => {
                        let table_end = tc0 + 8;
                        let table_span = subvec(&text, t0, table_end);
                        let rows = rows_from(&table_span);
                        proof {
                            assert(spec_csv_body(text@, pos as int, options@) == spec_table_csv(
                                text@.subrange(t0 as int, table_end as int),
                                options@,
                            ) + spec_csv_body(text@, table_end as int, options@));
                            assert(spec_table_csv(table_span@, options@)
                                == spec_table_csv_of_rows(row_views(rows@), options@));
                        }
                        let ghost prev = out@;
                        emit_table(&mut out, &rows, &options);
                        proof {
                            assert(out@ + spec_csv_body(text@, table_end as int, options@) =~= prev
                                + spec_csv_body(text@, pos as int, options@));
                        }
                        pos = table_end;
                    },
                }
            },
        }
    }
    if out.len() == 0 {
        let msg = "No tables found in the HTML";
        proof {
            reveal_strlit("No tables found in the HTML");
            assert(msg@ =~= no_tables_msg());
        }
        Ok(String::from_str(msg))
    } else {
        Ok(chars_to_string(&out))
    }
}

/// Converts every table of the document to delimited text under the
/// default configuration.
pub fn extract_table_from_html(html: &str) -> (r: Result<String, String>)
    ensures
        r is Ok,
        r->Ok_0@ == spec_extract(html@, default_options()),
{
    extract_table_from_html_with_options(html, CsvOptions::default())
}

} // verus!
