//! Row formatting: column selection, quoting, and joining.
//!
//! Each output field is chosen by the `show_fields` selection (or is the
//! row's own cell), then quoted according to `quote_columns` or the quote
//! mode, keyed by the field's 1-based source column, and the fields are
//! joined with the configured delimiter.

use vstd::prelude::*;
use crate::chars::chars_to_string;
use crate::chars::str_to_chars;
use crate::extract::str_views;
use crate::options::CsvOptions;
use crate::options::OptionsV;
use crate::options::QuoteMode;

verus! {

/// `col` occurs in the 1-based column list `cols`.
pub open spec fn in_cols(cols: Seq<usize>, col: int) -> bool {
    exists|k: int| 0 <= k < cols.len() && cols[k] as int == col
}

/// The field text holds a character that forces quoting under `AsNeeded`:
/// the delimiter, a double quote, or a newline.
pub open spec fn needs_quote(cell: Seq<char>, delimiter: char) -> bool {
    cell.contains(delimiter) || cell.contains('"') || cell.contains('\n')
}

/// The field text with every double quote doubled.
pub open spec fn escape_quotes(s: Seq<char>) -> Seq<char>
    decreases s.len(),
{
    if s.len() == 0 {
        Seq::empty()
    } else if s[0] == '"' {
        seq!['"', '"'] + escape_quotes(s.drop_first())
    } else {
        seq![s[0]] + escape_quotes(s.drop_first())
    }
}

/// A field wrapped in double quotes, its internal quotes doubled.
pub open spec fn quote_field(s: Seq<char>) -> Seq<char> {
    seq!['"'] + escape_quotes(s) + seq!['"']
}

/// Whether the field with text `cell` and 1-based source column `col` is
/// quoted: a non-empty `quote_columns` list decides alone; otherwise the
/// quote mode does.
pub open spec fn spec_should_quote(cell: Seq<char>, col: int, opts: OptionsV) -> bool {
    if opts.quote_columns.len() > 0 {
        in_cols(opts.quote_columns, col)
    } else {
        match opts.quote_mode {
            QuoteMode::Never => false,
            QuoteMode::Always => true,
            QuoteMode::AsNeeded => needs_quote(cell, opts.delimiter),
        }
    }
}

/// The number of output fields for `row`: the length of a non-empty
/// `show_fields` list, else the row's own width.
pub open spec fn spec_num_fields(row: Seq<Seq<char>>, opts: OptionsV) -> int {
    if opts.show_fields.len() > 0 {
        opts.show_fields.len() as int
    } else {
        row.len() as int
    }
}

/// The cell text selected for output position `i`: with a non-empty
/// `show_fields` list, the row's cell at the listed 1-based source column,
/// or the empty string when that column is out of the row's bounds;
/// otherwise the row's own cell at `i`.
pub open spec fn spec_selected_cell(row: Seq<Seq<char>>, opts: OptionsV, i: int) -> Seq<char> {
    if opts.show_fields.len() > 0 {
        let v = opts.show_fields[i] as int;
        if 1 <= v && v <= row.len() {
            row[v - 1]
        } else {
            Seq::empty()
        }
    } else {
        row[i]
    }
}

/// The 1-based source column number of output position `i`; quoting rules
/// key off this number, not the displayed position.
pub open spec fn spec_source_col(opts: OptionsV, i: int) -> int {
    if opts.show_fields.len() > 0 {
        opts.show_fields[i] as int
    } else {
        i + 1
    }
}

/// The finished text of output field `i`: the selected cell, quoted when
/// the quoting rules say so.
pub open spec fn spec_field_text(row: Seq<Seq<char>>, opts: OptionsV, i: int) -> Seq<char> {
    let cell = spec_selected_cell(row, opts, i);
    if spec_should_quote(cell, spec_source_col(opts, i), opts) {
        quote_field(cell)
    } else {
        cell
    }
}

/// Fields joined with single delimiter characters between them.
pub open spec fn spec_join(fields: Seq<Seq<char>>, delimiter: char) -> Seq<char>
    decreases fields.len(),
{
    if fields.len() == 0 {
        Seq::empty()
    } else if fields.len() == 1 {
        fields[0]
    } else {
        fields[0] + seq![delimiter] + spec_join(fields.drop_first(), delimiter)
    }
}

/// One formatted output row: its field texts joined with the delimiter.
pub open spec fn spec_format_row(row: Seq<Seq<char>>, opts: OptionsV) -> Seq<char> {
    spec_join(
        Seq::new(spec_num_fields(row, opts) as nat, |i: int| spec_field_text(row, opts, i)),
        opts.delimiter,
    )
}

/// Appending one field to a join appends a delimiter and the field, except
/// for the first field.
pub proof fn lemma_join_push(fields: Seq<Seq<char>>, x: Seq<char>, delimiter: char)
    ensures
        spec_join(fields.push(x), delimiter) == if fields.len() == 0 {
            x
        } else {
            spec_join(fields, delimiter) + seq![delimiter] + x
        },
    decreases fields.len(),
{
    if fields.len() == 0 {
        assert(fields.push(x).len() == 1);
        assert(fields.push(x)[0] == x);
    } else {
        lemma_join_push(fields.drop_first(), x, delimiter);
        assert(fields.push(x).drop_first() =~= fields.drop_first().push(x));
        assert(fields.push(x)[0] == fields[0]);
        if fields.len() == 1 {
            assert(fields.drop_first().len() == 0);
            assert(spec_join(fields, delimiter) == fields[0]);
        }
    }
}

/// Whether `col` occurs in `cols`.
pub fn contains_col(cols: &Vec<usize>, col: usize) -> (r: bool)
    ensures
        r == in_cols(cols@, col as int),
{
    let mut k: usize = 0;
    while k < cols.len()
        invariant
            k <= cols@.len(),
            forall|j: int| 0 <= j < k ==> cols@[j] != col,
        decreases cols@.len() - k,
    {
        if cols[k] == col {
            return true;
        }
        k = k + 1;
    }
    false
}

/// Whether `c` occurs in `v`.
pub fn contains_char(v: &Vec<char>, c: char) -> (r: bool)
    ensures
        r == v@.contains(c),
{
    let mut k: usize = 0;
    while k < v.len()
        invariant
            k <= v@.len(),
            forall|j: int| 0 <= j < k ==> v@[j] != c,
        decreases v@.len() - k,
    {
        if v[k] == c {
            return true;
        }
        k = k + 1;
    }
    false
}

/// Appends all of `cell` to `out`.
pub fn push_all(out: &mut Vec<char>, cell: &Vec<char>)
    ensures
        final(out)@ == old(out)@ + cell@,
{
    let mut i: usize = 0;
    while i < cell.len()
        invariant
            i <= cell@.len(),
            out@ == old(out)@ + cell@.subrange(0, i as int),
        decreases cell@.len() - i,
    {
        out.push(cell[i]);
        i = i + 1;
        proof {
            assert(out@ =~= old(out)@ + cell@.subrange(0, i as int));
        }
    }
    proof {
        assert(old(out)@ + cell@.subrange(0, i as int) =~= old(out)@ + cell@);
    }
}

/// Appends `cell` to `out` with every double quote doubled.
fn push_escaped(out: &mut Vec<char>, cell: &Vec<char>)
    ensures
        final(out)@ == old(out)@ + escape_quotes(cell@),
{
    let mut i: usize = 0;
    proof {
        assert(cell@.skip(0) =~= cell@);
    }
    while i < cell.len()
        invariant
            i <= cell@.len(),
            old(out)@ + escape_quotes(cell@) == out@ + escape_quotes(cell@.skip(i as int)),
        decreases cell@.len() - i,
    {
        let c = cell[i];
        proof {
            assert(cell@.skip(i as int)[0] == cell@[i as int]);
            assert(cell@.skip(i as int).drop_first() =~= cell@.skip(i + 1));
        }
        if c == '"' {
            out.push('"');
            out.push('"');
            proof {
                assert(out@ + escape_quotes(cell@.skip(i + 1)) =~= old(out)@ + escape_quotes(
                    cell@,
                ));
            }
        } else {
            out.push(c);
            proof {
                assert(out@ + escape_quotes(cell@.skip(i + 1)) =~= old(out)@ + escape_quotes(
                    cell@,
                ));
            }
        }
        i = i + 1;
    }
    proof {
        assert(cell@.skip(i as int) =~= Seq::<char>::empty());
        assert(out@ + escape_quotes(cell@.skip(i as int)) =~= out@);
    }
}

/// Formats one row under the given configuration, as a character vector:
/// selects and orders the output fields, quotes each according to the
/// rules, and joins them with the delimiter.
pub fn format_row_chars(row: &Vec<String>, options: &CsvOptions) -> (r: Vec<char>)
    ensures
        r@ == spec_format_row(str_views(row@), options@),
{
    let ghost rowv = str_views(row@);
    let ghost fields = Seq::new(
        spec_num_fields(rowv, options@) as nat,
        |i: int| spec_field_text(rowv, options@, i),
    );
    let row_len = row.len();
    let n = if options.show_fields.len() > 0 {
        options.show_fields.len()
    } else {
        row_len
    };
    let mut out: Vec<char> = Vec::new();
    let mut i: usize = 0;
    proof {
        assert(fields.take(0) =~= Seq::<Seq<char>>::empty());
    }
    while i < n
        invariant
            i <= n,
            rowv == str_views(row@),
            row@.len() == row_len,
            n == spec_num_fields(rowv, options@),
            n == if options.show_fields@.len() > 0 {
                options.show_fields@.len()
            } else {
                row@.len()
            },
            fields == Seq::new(
                spec_num_fields(rowv, options@) as nat,
                |j: int| spec_field_text(rowv, options@, j),
            ),
            out@ == spec_join(fields.take(i as int), options.delimiter),
        decreases n - i,
    {
        let (cell, col): (Vec<char>, usize) = if options.show_fields.len() > 0 {
            let v = options.show_fields[i];
            if 1 <= v && v <= row.len() {
                (str_to_chars(row[v - 1].as_str()), v)
            } else {
                (Vec::new(), v)
            }
        } else {
            (str_to_chars(row[i].as_str()), i + 1)
        };
        proof {
            assert(cell@ == spec_selected_cell(rowv, options@, i as int));
            assert(col as int == spec_source_col(options@, i as int));
        }
        let quote = if options.quote_columns.len() > 0 {
            contains_col(&options.quote_columns, col)
        } else {
            match options.quote_mode {
                QuoteMode::Never => false,
                QuoteMode::Always => true,
                QuoteMode::AsNeeded => {
                    contains_char(&cell, options.delimiter) || contains_char(&cell, '"')
                        || contains_char(&cell, '\n')
                },
            }
        };
        proof {
            assert(quote == spec_should_quote(cell@, col as int, options@));
        }
        let ghost out_before = out@;
        if i > 0 {
            out.push(options.delimiter);
        }
        let ghost out_mid = out@;
        if quote {
            out.push('"');
            push_escaped(&mut out, &cell);
            out.push('"');
            proof {
                assert(out@ =~= out_mid + quote_field(cell@));
            }
        } else {
            push_all(&mut out, &cell);
        }
        proof {
            let ghost ft = spec_field_text(rowv, options@, i as int);
            assert(ft == fields[i as int]);
            if quote {
                assert(out@ == out_mid + ft);
            } else {
                assert(out@ == out_mid + ft);
            }
            lemma_join_push(fields.take(i as int), ft, options.delimiter);
            assert(fields.take(i + 1) =~= fields.take(i as int).push(ft));
            if i > 0 {
                assert(out_mid =~= out_before + seq![options.delimiter]);
                assert(out@ =~= spec_join(fields.take(i as int), options.delimiter) + seq![
                    options.delimiter,
                ] + ft);
            } else {
                assert(fields.take(0int).len() == 0);
                assert(out_mid =~= out_before);
                assert(out@ =~= ft);
            }
            assert(out@ == spec_join(fields.take(i + 1), options.delimiter));
        }
        i = i + 1;
    }
    proof {
        assert(fields.take(n as int) =~= fields);
    }
    out
}

/// Formats one row under the given configuration: selects and orders the
/// output fields, quotes each according to the rules, and joins them with
/// the delimiter.
pub fn format_row_with_options(row: &Vec<String>, options: &CsvOptions) -> (r: String)
    ensures
        r@ == spec_format_row(str_views(row@), options@),
{
    let out = format_row_chars(row, options);
    chars_to_string(&out)
}

} // verus!
