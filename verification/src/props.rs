//! Properties of the pipeline, stated and proved against the same spec
//! functions that the executable functions' contracts use.

use vstd::prelude::*;
use crate::clean::collapse_ws;
use crate::clean::is_ws;
use crate::clean::spec_clean;
use crate::clean::strip_tags;
use crate::format::escape_quotes;
use crate::format::in_cols;
use crate::format::quote_field;
use crate::format::spec_field_text;
use crate::format::spec_format_row;
use crate::format::spec_num_fields;
use crate::format::spec_selected_cell;
use crate::format::spec_should_quote;
use crate::options::OptionsV;
use crate::pipeline::no_tables_msg;
use crate::pipeline::spec_csv_body;
use crate::pipeline::spec_extract;
use crate::pipeline::spec_row_lines;
use crate::scan::lemma_find_props;
use crate::scan::pat_table;
use crate::scan::pat_table_close;
use crate::scan::spec_find;

verus! {

/// The only whitespace in `s` is the plain space.
pub open spec fn only_space_ws(s: Seq<char>) -> bool {
    forall|i: int| 0 <= i < s.len() ==> (is_ws(#[trigger] s[i]) ==> s[i] == ' ')
}

/// An already-clean string: no tag delimiters, no whitespace other than
/// plain spaces, and no leading, trailing, or doubled spaces.
pub open spec fn is_clean(s: Seq<char>) -> bool {
    &&& forall|i: int| 0 <= i < s.len() ==> (s[i] != '<' && s[i] != '>')
    &&& only_space_ws(s)
    &&& (s.len() > 0 ==> s[0] != ' ')
    &&& (s.len() > 0 ==> s[s.len() - 1] != ' ')
    &&& forall|i: int| 0 <= i && i + 1 < s.len() ==> !((#[trigger] s[i]) == ' ' && s[i + 1] == ' ')
}

/// Stripping tags from a string without tag delimiters returns it
/// unchanged.
proof fn lemma_strip_identity(s: Seq<char>)
    requires
        forall|i: int| 0 <= i < s.len() ==> (s[i] != '<' && s[i] != '>'),
    ensures
        strip_tags(s, false) == s,
    decreases s.len(),
{
    if s.len() == 0 {
        assert(strip_tags(s, false) =~= s);
    } else {
        let d = s.drop_first();
        assert(forall|i: int| 0 <= i < d.len() ==> d[i] == s[i + 1]);
        lemma_strip_identity(d);
        assert(seq![s[0]] + d =~= s);
    }
}

/// Collapsing whitespace in a string whose only whitespace is single
/// spaces, with no doubled spaces and no trailing space, returns it
/// unchanged, with a single leading space added when one is pending
/// before a non-space character.
proof fn lemma_collapse_keep(s: Seq<char>, pending: bool)
    requires
        only_space_ws(s),
        forall|i: int| 0 <= i && i + 1 < s.len() ==> !((#[trigger] s[i]) == ' ' && s[i + 1] == ' '),
        s.len() > 0 ==> s[s.len() - 1] != ' ',
        pending ==> (s.len() == 0 || s[0] != ' '),
    ensures
        collapse_ws(s, true, pending) == (if pending && s.len() > 0 {
            seq![' '] + s
        } else {
            s
        }),
    decreases s.len(),
{
    if s.len() == 0 {
        assert(collapse_ws(s, true, pending) =~= s);
    } else {
        let d = s.drop_first();
        assert(forall|i: int| 0 <= i < d.len() ==> d[i] == s[i + 1]);
        if is_ws(s[0]) {
            assert(s[0] == ' ');
            assert(!pending);
            assert(s.len() >= 2);
            assert(d[0] == s[1] && s[1] != ' ');
            lemma_collapse_keep(d, true);
            assert(seq![' '] + d =~= s);
        } else {
            lemma_collapse_keep(d, false);
            assert(seq![s[0]] + d =~= s);
            if pending {
                assert(seq![' '] + (seq![s[0]] + d) =~= seq![' '] + s);
            }
        }
    }
}

/// Cleaning an already-clean string — no tags, no control whitespace, no
/// leading, trailing, or doubled spaces — returns it unchanged.
pub proof fn lemma_clean_of_clean_identity(s: Seq<char>)
    requires
        is_clean(s),
    ensures
        spec_clean(s) == s,
{
    lemma_strip_identity(s);
    if s.len() == 0 {
        assert(collapse_ws(s, false, false) =~= s);
    } else {
        let d = s.drop_first();
        assert(forall|i: int| 0 <= i < d.len() ==> d[i] == s[i + 1]);
        assert(!is_ws(s[0]));
        lemma_collapse_keep(d, false);
        assert(seq![s[0]] + d =~= s);
    }
}

/// Tag stripping leaves no tag delimiter behind.
proof fn lemma_strip_avoids_tag_delims(s: Seq<char>, in_tag: bool)
    ensures
        avoids(strip_tags(s, in_tag), '<'),
        avoids(strip_tags(s, in_tag), '>'),
    decreases s.len(),
{
    if s.len() > 0 {
        let d = s.drop_first();
        if s[0] == '<' {
            lemma_strip_avoids_tag_delims(d, true);
        } else if s[0] == '>' {
            lemma_strip_avoids_tag_delims(d, false);
        } else if in_tag {
            lemma_strip_avoids_tag_delims(d, true);
        } else {
            lemma_strip_avoids_tag_delims(d, false);
            lemma_avoids_concat(seq![s[0]], strip_tags(d, false), '<');
            lemma_avoids_concat(seq![s[0]], strip_tags(d, false), '>');
        }
    }
}

/// Whitespace collapsing introduces no character other than spaces.
proof fn lemma_collapse_preserves_avoids(s: Seq<char>, started: bool, pending: bool, c: char)
    requires
        avoids(s, c),
        c != ' ',
    ensures
        avoids(collapse_ws(s, started, pending), c),
    decreases s.len(),
{
    if s.len() > 0 {
        let d = s.drop_first();
        assert(forall|i: int| 0 <= i < d.len() ==> d[i] == s[i + 1]);
        if is_ws(s[0]) {
            lemma_collapse_preserves_avoids(d, started, true, c);
        } else {
            lemma_collapse_preserves_avoids(d, true, false, c);
            let sep: Seq<char> = if started && pending {
                seq![' ']
            } else {
                Seq::empty()
            };
            lemma_avoids_concat(sep, seq![s[0]], c);
            lemma_avoids_concat(sep + seq![s[0]], collapse_ws(d, true, false), c);
            assert(collapse_ws(s, started, pending) == (sep + seq![s[0]]) + collapse_ws(
                d,
                true,
                false,
            ));
        }
    }
}

/// Whitespace collapsing emits no whitespace other than plain spaces:
/// every emitted character is a space or a non-whitespace character of
/// the input.
proof fn lemma_collapse_only_space_ws(s: Seq<char>, started: bool, pending: bool)
    ensures
        only_space_ws(collapse_ws(s, started, pending)),
    decreases s.len(),
{
    if s.len() > 0 {
        let d = s.drop_first();
        if is_ws(s[0]) {
            lemma_collapse_only_space_ws(d, started, true);
        } else {
            lemma_collapse_only_space_ws(d, true, false);
            let sep: Seq<char> = if started && pending {
                seq![' ']
            } else {
                Seq::empty()
            };
            let rest = collapse_ws(d, true, false);
            let r = collapse_ws(s, started, pending);
            assert(r == (sep + seq![s[0]]) + rest);
            assert forall|i: int| 0 <= i < r.len() implies (is_ws(r[i]) ==> r[i] == ' ') by {
                if i < sep.len() {
                    assert(r[i] == ' ');
                } else if i == sep.len() {
                    assert(r[i] == s[0]);
                } else {
                    assert(r[i] == rest[i - sep.len() - 1]);
                }
            }
        }
    }
}

/// The shape of collapsed whitespace: no doubled spaces anywhere, no
/// trailing space, and, before anything was emitted, no leading space.
proof fn lemma_collapse_space_shape(s: Seq<char>, started: bool, pending: bool)
    ensures
        ({
            let r = collapse_ws(s, started, pending);
            &&& forall|i: int|
                0 <= i && i + 1 < r.len() ==> !((#[trigger] r[i]) == ' ' && r[i + 1] == ' ')
            &&& (r.len() > 0 ==> r[r.len() - 1] != ' ')
            &&& (!started ==> (r.len() > 0 ==> r[0] != ' '))
        }),
    decreases s.len(),
{
    if s.len() > 0 {
        let d = s.drop_first();
        if is_ws(s[0]) {
            lemma_collapse_space_shape(d, started, true);
        } else {
            lemma_collapse_space_shape(d, true, false);
            let sep: Seq<char> = if started && pending {
                seq![' ']
            } else {
                Seq::empty()
            };
            let rest = collapse_ws(d, true, false);
            let r = collapse_ws(s, started, pending);
            assert(r == (sep + seq![s[0]]) + rest);
            let off: int = sep.len() as int + 1;
            assert(r[off - 1] == s[0]);
            assert(forall|i: int| 0 <= i < rest.len() ==> r[off + i] == rest[i]);
            assert forall|i: int|
                0 <= i && i + 1 < r.len() implies !((#[trigger] r[i]) == ' ' && r[i + 1]
                == ' ') by {
                if i + 1 < off {
                    assert(r[i + 1] == s[0]);
                } else if i < off {
                    assert(r[i] == s[0]);
                } else {
                    assert(r[i] == rest[i - off] && r[i + 1] == rest[i + 1 - off]);
                }
            }
            if rest.len() == 0 {
                assert(r[r.len() - 1] == s[0]);
            } else {
                assert(r[r.len() - 1] == rest[rest.len() - 1]);
            }
        }
    }
}

/// The result of cleaning is itself clean.
pub proof fn lemma_clean_is_clean(s: Seq<char>)
    ensures
        is_clean(spec_clean(s)),
{
    let t = strip_tags(s, false);
    lemma_strip_avoids_tag_delims(s, false);
    lemma_collapse_preserves_avoids(t, false, false, '<');
    lemma_collapse_preserves_avoids(t, false, false, '>');
    lemma_collapse_only_space_ws(t, false, false);
    lemma_collapse_space_shape(t, false, false);
}

/// Cleaning is idempotent: cleaning the result of a cleaning changes
/// nothing, whatever the original input held.
pub proof fn lemma_clean_idempotent(s: Seq<char>)
    ensures
        spec_clean(spec_clean(s)) == spec_clean(s),
{
    lemma_clean_is_clean(s);
    lemma_clean_of_clean_identity(spec_clean(s));
}

/// Undoes quote doubling: each doubled double quote becomes a single one.
pub open spec fn unescape_quotes(s: Seq<char>) -> Seq<char>
    decreases s.len(),
{
    if s.len() == 0 {
        Seq::empty()
    } else if s.len() >= 2 && s[0] == '"' && s[1] == '"' {
        seq!['"'] + unescape_quotes(s.skip(2))
    } else {
        seq![s[0]] + unescape_quotes(s.drop_first())
    }
}

/// Unescaping undoes escaping exactly.
pub proof fn lemma_unescape_escape(s: Seq<char>)
    ensures
        unescape_quotes(escape_quotes(s)) == s,
    decreases s.len(),
{
    if s.len() == 0 {
        assert(unescape_quotes(escape_quotes(s)) =~= s);
    } else {
        let d = s.drop_first();
        lemma_unescape_escape(d);
        if s[0] == '"' {
            let e = seq!['"', '"'] + escape_quotes(d);
            assert(escape_quotes(s) == e);
            assert(e.len() >= 2 && e[0] == '"' && e[1] == '"');
            assert(e.skip(2) =~= escape_quotes(d));
            assert(seq!['"'] + d =~= s);
        } else {
            let e = seq![s[0]] + escape_quotes(d);
            assert(escape_quotes(s) == e);
            assert(e[0] == s[0]);
            assert(e.drop_first() =~= escape_quotes(d));
            assert(seq![s[0]] + d =~= s);
        }
    }
}

/// The quoting round trip: under `AsNeeded` with no explicit quote
/// columns, a field containing the delimiter is quoted whatever its
/// column; the emitted text is the field wrapped in double quotes with its
/// internal quotes doubled, and unescaping the wrapped text recovers the
/// field exactly.
pub proof fn lemma_quote_round_trip(cell: Seq<char>, opts: OptionsV)
    requires
        opts.quote_columns.len() == 0,
        opts.quote_mode is AsNeeded,
        cell.contains(opts.delimiter),
    ensures
        forall|col: int| spec_should_quote(cell, col, opts),
        quote_field(cell).len() == escape_quotes(cell).len() + 2,
        quote_field(cell)[0] == '"',
        quote_field(cell)[quote_field(cell).len() - 1] == '"',
        unescape_quotes(quote_field(cell).subrange(1, quote_field(cell).len() - 1)) == cell,
{
    lemma_unescape_escape(cell);
    let t = quote_field(cell);
    assert(t.subrange(1, t.len() - 1) =~= escape_quotes(cell));
}

/// Splits one line on the delimiter, outside quoted regions: a double
/// quote toggles quoting, a doubled double quote inside a quoted region
/// is one literal quote, and a delimiter inside a quoted region is text.
/// `current` is the field being accumulated.
pub open spec fn csv_split_rec(
    line: Seq<char>,
    delimiter: char,
    current: Seq<char>,
    in_quotes: bool,
) -> Seq<Seq<char>>
    decreases line.len(),
{
    if line.len() == 0 {
        seq![current]
    } else {
        let c = line[0];
        let rest = line.drop_first();
        if in_quotes {
            if c == '"' {
                if rest.len() > 0 && rest[0] == '"' {
                    csv_split_rec(rest.drop_first(), delimiter, current.push('"'), true)
                } else {
                    csv_split_rec(rest, delimiter, current, false)
                }
            } else {
                csv_split_rec(rest, delimiter, current.push(c), true)
            }
        } else {
            if c == '"' {
                csv_split_rec(rest, delimiter, current, true)
            } else if c == delimiter {
                seq![current] + csv_split_rec(rest, delimiter, Seq::empty(), false)
            } else {
                csv_split_rec(rest, delimiter, current.push(c), false)
            }
        }
    }
}

/// The fields of one line, split on the delimiter outside quoted regions.
pub open spec fn csv_split(line: Seq<char>, delimiter: char) -> Seq<Seq<char>> {
    csv_split_rec(line, delimiter, Seq::empty(), false)
}

/// A string that does not contain a character avoids it everywhere.
proof fn lemma_not_contains_avoids(s: Seq<char>, c: char)
    requires
        !s.contains(c),
    ensures
        avoids(s, c),
{
    assert forall|i: int| 0 <= i < s.len() implies s[i] != c by {
        if s[i] == c {
            assert(s.contains(c));
        }
    }
}

/// The splitter consumes an unquoted field — one without the delimiter or
/// a double quote — by accumulating it unchanged.
proof fn lemma_split_plain(cell: Seq<char>, tail: Seq<char>, delimiter: char, current: Seq<char>)
    requires
        avoids(cell, delimiter),
        avoids(cell, '"'),
    ensures
        csv_split_rec(cell + tail, delimiter, current, false) == csv_split_rec(
            tail,
            delimiter,
            current + cell,
            false,
        ),
    decreases cell.len(),
{
    if cell.len() == 0 {
        assert(cell + tail =~= tail);
        assert(current + cell =~= current);
    } else {
        let c = cell[0];
        let d = cell.drop_first();
        assert(forall|i: int| 0 <= i < d.len() ==> d[i] == cell[i + 1]);
        assert((cell + tail)[0] == c);
        assert((cell + tail).drop_first() =~= d + tail);
        lemma_split_plain(d, tail, delimiter, current.push(c));
        assert(current.push(c) + d =~= current + cell);
    }
}

/// The splitter consumes the escaped body and closing quote of a quoted
/// field, accumulating the unescaped field, as long as no stray quote
/// follows the closing one.
proof fn lemma_split_quoted_body(
    cell: Seq<char>,
    tail: Seq<char>,
    delimiter: char,
    current: Seq<char>,
)
    requires
        tail.len() == 0 || tail[0] != '"',
    ensures
        csv_split_rec(escape_quotes(cell) + (seq!['"'] + tail), delimiter, current, true)
            == csv_split_rec(tail, delimiter, current + cell, false),
    decreases cell.len(),
{
    if cell.len() == 0 {
        let line = escape_quotes(cell) + (seq!['"'] + tail);
        assert(line =~= seq!['"'] + tail);
        assert(line[0] == '"');
        assert(line.drop_first() =~= tail);
        assert(current + cell =~= current);
    } else {
        let c = cell[0];
        let d = cell.drop_first();
        let e = escape_quotes(d);
        if c == '"' {
            assert(escape_quotes(cell) == seq!['"', '"'] + e);
            let line = escape_quotes(cell) + (seq!['"'] + tail);
            assert(line[0] == '"');
            assert(line.drop_first() =~= seq!['"'] + (e + (seq!['"'] + tail)));
            assert(line.drop_first()[0] == '"');
            assert(line.drop_first().drop_first() =~= e + (seq!['"'] + tail));
            lemma_split_quoted_body(d, tail, delimiter, current.push('"'));
            assert(current.push('"') + d =~= current + cell);
        } else {
            assert(escape_quotes(cell) == seq![c] + e);
            let line = escape_quotes(cell) + (seq!['"'] + tail);
            assert(line[0] == c);
            assert(line.drop_first() =~= e + (seq!['"'] + tail));
            lemma_split_quoted_body(d, tail, delimiter, current.push(c));
            assert(current.push(c) + d =~= current + cell);
        }
    }
}

/// The full quoting round trip at row level: under `AsNeeded` with no
/// explicit quote columns and no column selection, splitting a formatted
/// row on the delimiter outside quoted regions recovers the original
/// cells exactly.
pub proof fn lemma_row_split_round_trip(row: Seq<Seq<char>>, opts: OptionsV)
    requires
        opts.show_fields.len() == 0,
        opts.quote_columns.len() == 0,
        opts.quote_mode is AsNeeded,
        opts.delimiter != '"',
        row.len() >= 1,
    ensures
        csv_split(spec_format_row(row, opts), opts.delimiter) == row,
    decreases row.len(),
{
    let d = opts.delimiter;
    let n = row.len() as int;
    let fields = Seq::new(n as nat, |i: int| spec_field_text(row, opts, i));
    let cell = row[0];
    let ft0 = spec_field_text(row, opts, 0);
    assert(fields[0] == ft0);
    assert(spec_selected_cell(row, opts, 0) == cell);
    let quoted = crate::format::needs_quote(cell, d);
    assert(spec_should_quote(cell, crate::format::spec_source_col(opts, 0), opts) == quoted);
    if n == 1 {
        assert(spec_format_row(row, opts) == ft0);
        if quoted {
            assert(ft0 == quote_field(cell));
            assert(ft0 =~= seq!['"'] + (escape_quotes(cell) + (seq!['"'] + Seq::<char>::empty())));
            let body = escape_quotes(cell) + (seq!['"'] + Seq::<char>::empty());
            assert(ft0[0] == '"');
            assert(ft0.drop_first() =~= body);
            lemma_split_quoted_body(cell, Seq::empty(), d, Seq::empty());
            assert(Seq::<char>::empty() + cell =~= cell);
            assert(csv_split(ft0, d) == seq![cell]);
        } else {
            lemma_not_contains_avoids(cell, d);
            lemma_not_contains_avoids(cell, '"');
            assert(ft0 == cell);
            assert(cell + Seq::<char>::empty() =~= cell);
            lemma_split_plain(cell, Seq::empty(), d, Seq::empty());
            assert(Seq::<char>::empty() + cell =~= cell);
            assert(csv_split(ft0, d) == seq![cell]);
        }
        assert(seq![cell] =~= row);
    } else {
        let row2 = row.drop_first();
        lemma_row_split_round_trip(row2, opts);
        let fields2 = Seq::new((n - 1) as nat, |i: int| spec_field_text(row2, opts, i));
        assert forall|i: int| 0 <= i < n - 1 implies fields.drop_first()[i] == fields2[i] by {
            assert(fields.drop_first()[i] == spec_field_text(row, opts, i + 1));
            assert(spec_selected_cell(row, opts, i + 1) == row[i + 1]);
            assert(spec_selected_cell(row2, opts, i) == row2[i]);
            assert(row2[i] == row[i + 1]);
        }
        assert(fields.drop_first() =~= fields2);
        assert(spec_format_row(row2, opts) == crate::format::spec_join(fields2, d));
        let rest_line = crate::format::spec_join(fields2, d);
        assert(spec_format_row(row, opts) == ft0 + (seq![d] + rest_line)) by {
            assert(crate::format::spec_join(fields, d) == fields[0] + seq![d]
                + crate::format::spec_join(fields.drop_first(), d));
            assert(ft0 + seq![d] + rest_line =~= ft0 + (seq![d] + rest_line));
        }
        let tail = seq![d] + rest_line;
        assert(tail[0] == d);
        if quoted {
            assert(ft0 == quote_field(cell));
            let line = spec_format_row(row, opts);
            assert(line =~= seq!['"'] + (escape_quotes(cell) + (seq!['"'] + tail)));
            assert(line[0] == '"');
            assert(line.drop_first() =~= escape_quotes(cell) + (seq!['"'] + tail));
            lemma_split_quoted_body(cell, tail, d, Seq::empty());
            assert(Seq::<char>::empty() + cell =~= cell);
            assert(csv_split(line, d) == csv_split_rec(tail, d, cell, false));
        } else {
            lemma_not_contains_avoids(cell, d);
            lemma_not_contains_avoids(cell, '"');
            assert(ft0 == cell);
            let line = spec_format_row(row, opts);
            assert(line =~= cell + tail);
            lemma_split_plain(cell, tail, d, Seq::empty());
            assert(Seq::<char>::empty() + cell =~= cell);
            assert(csv_split(line, d) == csv_split_rec(tail, d, cell, false));
        }
        assert(tail.drop_first() =~= rest_line);
        assert(csv_split_rec(tail, d, cell, false) == seq![cell] + csv_split_rec(
            rest_line,
            d,
            Seq::empty(),
            false,
        ));
        assert(csv_split_rec(rest_line, d, Seq::empty(), false) == row2);
        assert(seq![cell] + row2 =~= row);
    }
}

/// A `show_fields` entry out of the row's bounds selects the empty string
/// for that output position; selection is total and never fails.
pub proof fn lemma_out_of_bounds_field_empty(row: Seq<Seq<char>>, opts: OptionsV, i: int)
    requires
        opts.show_fields.len() > 0,
        0 <= i < opts.show_fields.len(),
        opts.show_fields[i] < 1 || opts.show_fields[i] > row.len(),
    ensures
        spec_selected_cell(row, opts, i) == Seq::<char>::empty(),
{
}

/// Two configurations that differ only in quote mode, both with the same
/// non-empty `quote_columns` list.
pub open spec fn same_but_quote_mode(opts1: OptionsV, opts2: OptionsV) -> bool {
    &&& opts1.quote_columns.len() > 0
    &&& opts2.quote_columns == opts1.quote_columns
    &&& opts2.show_fields == opts1.show_fields
    &&& opts2.delimiter == opts1.delimiter
    &&& opts2.no_header == opts1.no_header
}

/// A non-empty `quote_columns` list fully overrides the quote mode: a
/// field is quoted exactly when its source column is listed, and one
/// formatted row is the same under any quote mode.
pub proof fn lemma_quote_columns_override_row(
    row: Seq<Seq<char>>,
    opts1: OptionsV,
    opts2: OptionsV,
)
    requires
        same_but_quote_mode(opts1, opts2),
    ensures
        forall|cell: Seq<char>, col: int| #[trigger]
            spec_should_quote(cell, col, opts1) == in_cols(opts1.quote_columns, col),
        spec_format_row(row, opts1) == spec_format_row(row, opts2),
{
    assert forall|i: int|
        0 <= i < spec_num_fields(row, opts1) implies spec_field_text(row, opts1, i)
        == spec_field_text(row, opts2, i) by {
        assert(spec_selected_cell(row, opts1, i) == spec_selected_cell(row, opts2, i));
    }
    assert(Seq::new(spec_num_fields(row, opts1) as nat, |i: int| spec_field_text(row, opts1, i))
        =~= Seq::new(spec_num_fields(row, opts2) as nat, |i: int| spec_field_text(row, opts2, i)));
}

/// The rows of every table format the same under two configurations that
/// differ only in quote mode when `quote_columns` is non-empty.
proof fn lemma_quote_columns_override_lines(
    rows: Seq<Seq<Seq<char>>>,
    opts1: OptionsV,
    opts2: OptionsV,
)
    requires
        same_but_quote_mode(opts1, opts2),
    ensures
        spec_row_lines(rows, opts1) == spec_row_lines(rows, opts2),
    decreases rows.len(),
{
    if rows.len() > 0 {
        lemma_quote_columns_override_row(rows[0], opts1, opts2);
        lemma_quote_columns_override_lines(rows.drop_first(), opts1, opts2);
    }
}

/// The whole body of the output is the same under two configurations that
/// differ only in quote mode when `quote_columns` is non-empty.
proof fn lemma_quote_columns_override_body(
    text: Seq<char>,
    pos: int,
    opts1: OptionsV,
    opts2: OptionsV,
)
    requires
        0 <= pos,
        same_but_quote_mode(opts1, opts2),
    ensures
        spec_csv_body(text, pos, opts1) == spec_csv_body(text, pos, opts2),
    decreases text.len() - pos,
{
    lemma_find_props(text, pat_table(), pos);
    match spec_find(text, pat_table(), pos) {
        None => {},
        Some(ts) => {
            lemma_find_props(text, pat_table_close(), ts);
            match spec_find(text, pat_table_close(), ts) {
                None => {},
                Some(tc) => {
                    let table = text.subrange(ts, tc + 8);
                    lemma_quote_columns_override_lines(
                        crate::pipeline::spec_kept_rows(
                            crate::extract::spec_rows(table, 0),
                            opts1,
                        ),
                        opts1,
                        opts2,
                    );
                    lemma_quote_columns_override_body(text, tc + 8, opts1, opts2);
                },
            }
        },
    }
}

/// A non-empty `quote_columns` list fully overrides the quote mode: the
/// entire output of a document is the same under any quote mode.
pub proof fn lemma_quote_columns_override_output(text: Seq<char>, opts1: OptionsV, opts2: OptionsV)
    requires
        same_but_quote_mode(opts1, opts2),
    ensures
        spec_extract(text, opts1) == spec_extract(text, opts2),
{
    lemma_quote_columns_override_body(text, 0, opts1, opts2);
}

/// No character of `s` is `c`.
pub open spec fn avoids(s: Seq<char>, c: char) -> bool {
    forall|i: int| 0 <= i < s.len() ==> (#[trigger] s[i]) != c
}

/// No cell of `row` holds a newline.
pub open spec fn row_cells_ok(row: Seq<Seq<char>>) -> bool {
    forall|k: int| 0 <= k < row.len() ==> avoids(#[trigger] row[k], '\n')
}

/// The number of occurrences of `c` in `s`.
pub open spec fn count_char(s: Seq<char>, c: char) -> int
    decreases s.len(),
{
    if s.len() == 0 {
        0
    } else {
        (if s[0] == c {
            1int
        } else {
            0int
        }) + count_char(s.drop_first(), c)
    }
}

/// Counting distributes over concatenation.
proof fn lemma_count_concat(a: Seq<char>, b: Seq<char>, c: char)
    ensures
        count_char(a + b, c) == count_char(a, c) + count_char(b, c),
    decreases a.len(),
{
    if a.len() == 0 {
        assert(a + b =~= b);
    } else {
        assert((a + b)[0] == a[0]);
        assert((a + b).drop_first() =~= a.drop_first() + b);
        lemma_count_concat(a.drop_first(), b, c);
    }
}

/// A string that avoids `c` holds zero occurrences of it.
proof fn lemma_count_zero(s: Seq<char>, c: char)
    requires
        avoids(s, c),
    ensures
        count_char(s, c) == 0,
    decreases s.len(),
{
    if s.len() > 0 {
        assert(forall|i: int| 0 <= i < s.drop_first().len() ==> s.drop_first()[i] == s[i + 1]);
        lemma_count_zero(s.drop_first(), c);
    }
}

/// Avoidance of a character is preserved by concatenation.
proof fn lemma_avoids_concat(a: Seq<char>, b: Seq<char>, c: char)
    requires
        avoids(a, c),
        avoids(b, c),
    ensures
        avoids(a + b, c),
{
    assert forall|i: int| 0 <= i < (a + b).len() implies (a + b)[i] != c by {
        if i < a.len() {
            assert((a + b)[i] == a[i]);
        } else {
            assert((a + b)[i] == b[i - a.len()]);
        }
    }
}

/// A cleaned cell holds no newline.
pub proof fn lemma_clean_no_newline(s: Seq<char>)
    ensures
        avoids(spec_clean(s), '\n'),
{
    lemma_collapse_only_space_ws(strip_tags(s, false), false, false);
    let r = spec_clean(s);
    assert forall|i: int| 0 <= i < r.len() implies r[i] != '\n' by {
        if r[i] == '\n' {
            assert(is_ws(r[i]));
        }
    }
}

/// Every cell extracted from a row span holds no newline.
proof fn lemma_cells_no_newline(row: Seq<char>, pos: int)
    requires
        0 <= pos,
    ensures
        row_cells_ok(crate::extract::spec_cells(row, pos)),
    decreases row.len() - pos,
{
    lemma_find_props(row, crate::scan::pat_td(), pos);
    lemma_find_props(row, crate::scan::pat_th(), pos);
    match crate::extract::spec_cell_start(row, pos) {
        None => {},
        Some(cs) => {
            lemma_find_props(row, crate::scan::pat_th_close(), cs);
            lemma_find_props(row, crate::scan::pat_td_close(), cs);
            let is_th = crate::scan::matches_at(row, crate::scan::pat_th(), cs);
            let close = if is_th {
                spec_find(row, crate::scan::pat_th_close(), cs)
            } else {
                spec_find(row, crate::scan::pat_td_close(), cs)
            };
            match close {
                None => {},
                Some(cl) => {
                    lemma_cells_no_newline(row, cl + 5);
                    let rest = crate::extract::spec_cells(row, cl + 5);
                    match spec_find(row, crate::scan::pat_gt(), cs) {
                        None => {},
                        Some(g) => {
                            if g < cl {
                                let content = if g + 1 < cl {
                                    row.subrange(g + 1, cl)
                                } else {
                                    Seq::empty()
                                };
                                lemma_clean_no_newline(content);
                                let cells = crate::extract::spec_cells(row, pos);
                                assert(cells == seq![spec_clean(content)] + rest);
                                assert forall|k: int| 0 <= k < cells.len() implies avoids(
                                    cells[k],
                                    '\n',
                                ) by {
                                    if k == 0 {
                                        assert(cells[k] == spec_clean(content));
                                    } else {
                                        assert(cells[k] == rest[k - 1]);
                                    }
                                }
                            }
                        },
                    }
                },
            }
        },
    }
}

/// Every cell of every row extracted from a table span holds no newline.
proof fn lemma_rows_no_newline(table: Seq<char>, pos: int)
    requires
        0 <= pos,
    ensures
        forall|i: int|
            0 <= i < crate::extract::spec_rows(table, pos).len() ==> row_cells_ok(
                #[trigger] crate::extract::spec_rows(table, pos)[i],
            ),
    decreases table.len() - pos,
{
    lemma_find_props(table, crate::scan::pat_tr(), pos);
    match spec_find(table, crate::scan::pat_tr(), pos) {
        None => {},
        Some(rs) => {
            lemma_find_props(table, crate::scan::pat_tr_close(), rs);
            match spec_find(table, crate::scan::pat_tr_close(), rs) {
                None => {},
                Some(rc) => {
                    lemma_cells_no_newline(table.subrange(rs, rc + 5), 0);
                    lemma_rows_no_newline(table, rc + 5);
                    let cells = crate::extract::spec_cells(table.subrange(rs, rc + 5), 0);
                    let rest = crate::extract::spec_rows(table, rc + 5);
                    let rows = crate::extract::spec_rows(table, pos);
                    assert forall|i: int| 0 <= i < rows.len() implies row_cells_ok(rows[i]) by {
                        if cells.len() > 0 {
                            assert(rows == seq![cells] + rest);
                            if i == 0 {
                                assert(rows[i] == cells);
                            } else {
                                assert(rows[i] == rest[i - 1]);
                            }
                        } else {
                            assert(rows == Seq::<Seq<Seq<char>>>::empty() + rest);
                            assert(rows[i] == rest[i]);
                        }
                    }
                },
            }
        },
    }
}

/// Escaping quotes introduces no new character other than double quotes.
proof fn lemma_escape_avoids(s: Seq<char>, c: char)
    requires
        avoids(s, c),
        c != '"',
    ensures
        avoids(escape_quotes(s), c),
    decreases s.len(),
{
    if s.len() > 0 {
        let d = s.drop_first();
        assert(forall|i: int| 0 <= i < d.len() ==> d[i] == s[i + 1]);
        lemma_escape_avoids(d, c);
        if s[0] == '"' {
            lemma_avoids_concat(seq!['"', '"'], escape_quotes(d), c);
        } else {
            lemma_avoids_concat(seq![s[0]], escape_quotes(d), c);
        }
    }
}

/// Joining fields that avoid a character with a delimiter other than it
/// yields a string that avoids it.
proof fn lemma_join_avoids(fields: Seq<Seq<char>>, delimiter: char, c: char)
    requires
        c != delimiter,
        forall|k: int| 0 <= k < fields.len() ==> avoids(#[trigger] fields[k], c),
    ensures
        avoids(crate::format::spec_join(fields, delimiter), c),
    decreases fields.len(),
{
    if fields.len() == 0 {
    } else if fields.len() == 1 {
        assert(avoids(fields[0], c));
    } else {
        let d = fields.drop_first();
        assert(forall|i: int| 0 <= i < d.len() ==> d[i] == fields[i + 1]);
        lemma_join_avoids(d, delimiter, c);
        lemma_avoids_concat(fields[0], seq![delimiter], c);
        lemma_avoids_concat(fields[0] + seq![delimiter], crate::format::spec_join(d, delimiter), c);
        assert(crate::format::spec_join(fields, delimiter) == (fields[0] + seq![delimiter])
            + crate::format::spec_join(d, delimiter));
    }
}

/// A formatted row of newline-free cells holds no newline when the
/// delimiter is not a newline.
proof fn lemma_format_row_no_newline(row: Seq<Seq<char>>, opts: OptionsV)
    requires
        row_cells_ok(row),
        opts.delimiter != '\n',
    ensures
        avoids(spec_format_row(row, opts), '\n'),
{
    let n = spec_num_fields(row, opts) as nat;
    let fields = Seq::new(n, |i: int| spec_field_text(row, opts, i));
    assert forall|k: int| 0 <= k < fields.len() implies avoids(fields[k], '\n') by {
        let cell = spec_selected_cell(row, opts, k);
        assert(avoids(cell, '\n'));
        if spec_should_quote(cell, crate::format::spec_source_col(opts, k), opts) {
            lemma_escape_avoids(cell, '\n');
            lemma_avoids_concat(seq!['"'], escape_quotes(cell), '\n');
            lemma_avoids_concat(seq!['"'] + escape_quotes(cell), seq!['"'], '\n');
            assert(quote_field(cell) == (seq!['"'] + escape_quotes(cell)) + seq!['"']);
        }
    }
    lemma_join_avoids(fields, opts.delimiter, '\n');
}

/// The formatted lines of rows that each hold at least one newline-free
/// cell carry exactly one newline per row.
proof fn lemma_row_lines_newline_count(rows: Seq<Seq<Seq<char>>>, opts: OptionsV)
    requires
        opts.delimiter != '\n',
        forall|i: int| 0 <= i < rows.len() ==> row_cells_ok(#[trigger] rows[i]),
        forall|i: int| 0 <= i < rows.len() ==> (#[trigger] rows[i]).len() > 0,
    ensures
        count_char(spec_row_lines(rows, opts), '\n') == rows.len(),
    decreases rows.len(),
{
    if rows.len() > 0 {
        let d = rows.drop_first();
        assert(forall|i: int| 0 <= i < d.len() ==> d[i] == rows[i + 1]);
        lemma_row_lines_newline_count(d, opts);
        let line = spec_format_row(rows[0], opts);
        lemma_format_row_no_newline(rows[0], opts);
        lemma_count_zero(line, '\n');
        lemma_count_concat(line, seq!['\n'], '\n');
        lemma_count_concat(line + seq!['\n'], spec_row_lines(d, opts), '\n');
        assert(count_char(seq!['\n'], '\n') == 1) by {
            let s: Seq<char> = seq!['\n'];
            assert(s.len() == 1 && s[0] == '\n');
            assert(s.drop_first() =~= Seq::<char>::empty());
            assert(count_char(s.drop_first(), '\n') == 0);
        }
        assert(spec_row_lines(rows, opts) == (line + seq!['\n']) + spec_row_lines(d, opts));
    }
}

/// The text of one well-formed cell: `<th>`…`</th>` for a header cell,
/// `<td>`…`</td>` for a data cell.
pub open spec fn cell_text(is_th: bool, content: Seq<char>) -> Seq<char> {
    if is_th {
        seq!['<', 't', 'h', '>'] + content + seq!['<', '/', 't', 'h', '>']
    } else {
        seq!['<', 't', 'd', '>'] + content + seq!['<', '/', 't', 'd', '>']
    }
}

/// The concatenated text of a sequence of well-formed cells, each given
/// as its kind (header or data) and its raw content.
pub open spec fn cells_text(cells: Seq<(bool, Seq<char>)>) -> Seq<char>
    decreases cells.len(),
{
    if cells.len() == 0 {
        Seq::empty()
    } else {
        cell_text(cells[0].0, cells[0].1) + cells_text(cells.drop_first())
    }
}

/// Marker-free cell contents: no tag delimiter inside any cell.
pub open spec fn contents_wf(cells: Seq<(bool, Seq<char>)>) -> bool {
    forall|k: int|
        0 <= k < cells.len() ==> avoids((#[trigger] cells[k]).1, '<') && avoids(cells[k].1, '>')
}

/// The text of one well-formed row: `<tr>`, the cells, `</tr>`.
pub open spec fn row_text(cells: Seq<(bool, Seq<char>)>) -> Seq<char> {
    seq!['<', 't', 'r', '>'] + cells_text(cells) + seq!['<', '/', 't', 'r', '>']
}

/// A three-character pattern matches where its characters stand.
proof fn lemma_matches3(text: Seq<char>, pat: Seq<char>, i: int)
    requires
        pat.len() == 3,
        0 <= i,
        i + 3 <= text.len(),
        crate::scan::lower_char(text[i]) == pat[0],
        crate::scan::lower_char(text[i + 1]) == pat[1],
        crate::scan::lower_char(text[i + 2]) == pat[2],
    ensures
        crate::scan::matches_at(text, pat, i),
{
    assert forall|j: int| 0 <= j < 3 implies crate::scan::lower_char(text[i + j]) == pat[j] by {
        if j == 0 {
        } else if j == 1 {
        } else {
        }
    }
}

/// A five-character pattern matches where its characters stand.
proof fn lemma_matches5(text: Seq<char>, pat: Seq<char>, i: int)
    requires
        pat.len() == 5,
        0 <= i,
        i + 5 <= text.len(),
        crate::scan::lower_char(text[i]) == pat[0],
        crate::scan::lower_char(text[i + 1]) == pat[1],
        crate::scan::lower_char(text[i + 2]) == pat[2],
        crate::scan::lower_char(text[i + 3]) == pat[3],
        crate::scan::lower_char(text[i + 4]) == pat[4],
    ensures
        crate::scan::matches_at(text, pat, i),
{
    assert forall|j: int| 0 <= j < 5 implies crate::scan::lower_char(text[i + j]) == pat[j] by {
        if j == 0 {
        } else if j == 1 {
        } else if j == 2 {
        } else if j == 3 {
        } else {
        }
    }
}

/// A six-character pattern matches where its characters stand.
proof fn lemma_matches6(text: Seq<char>, pat: Seq<char>, i: int)
    requires
        pat.len() == 6,
        0 <= i,
        i + 6 <= text.len(),
        crate::scan::lower_char(text[i]) == pat[0],
        crate::scan::lower_char(text[i + 1]) == pat[1],
        crate::scan::lower_char(text[i + 2]) == pat[2],
        crate::scan::lower_char(text[i + 3]) == pat[3],
        crate::scan::lower_char(text[i + 4]) == pat[4],
        crate::scan::lower_char(text[i + 5]) == pat[5],
    ensures
        crate::scan::matches_at(text, pat, i),
{
    assert forall|j: int| 0 <= j < 6 implies crate::scan::lower_char(text[i + j]) == pat[j] by {
        if j == 0 {
        } else if j == 1 {
        } else if j == 2 {
        } else if j == 3 {
        } else if j == 4 {
        } else {
        }
    }
}

/// An eight-character pattern matches where its characters stand.
proof fn lemma_matches8(text: Seq<char>, pat: Seq<char>, i: int)
    requires
        pat.len() == 8,
        0 <= i,
        i + 8 <= text.len(),
        crate::scan::lower_char(text[i]) == pat[0],
        crate::scan::lower_char(text[i + 1]) == pat[1],
        crate::scan::lower_char(text[i + 2]) == pat[2],
        crate::scan::lower_char(text[i + 3]) == pat[3],
        crate::scan::lower_char(text[i + 4]) == pat[4],
        crate::scan::lower_char(text[i + 5]) == pat[5],
        crate::scan::lower_char(text[i + 6]) == pat[6],
        crate::scan::lower_char(text[i + 7]) == pat[7],
    ensures
        crate::scan::matches_at(text, pat, i),
{
    assert forall|j: int| 0 <= j < 8 implies crate::scan::lower_char(text[i + j]) == pat[j] by {
        if j == 0 {
        } else if j == 1 {
        } else if j == 2 {
        } else if j == 3 {
        } else if j == 4 {
        } else if j == 5 {
        } else if j == 6 {
        } else {
        }
    }
}

/// A one-character pattern matches where its character stands.
proof fn lemma_matches1(text: Seq<char>, pat: Seq<char>, i: int)
    requires
        pat.len() == 1,
        0 <= i,
        i + 1 <= text.len(),
        crate::scan::lower_char(text[i]) == pat[0],
    ensures
        crate::scan::matches_at(text, pat, i),
{
    assert forall|j: int| 0 <= j < 1 implies crate::scan::lower_char(text[i + j]) == pat[j] by {
        assert(j == 0);
    }
}

/// Scanning a row from a cursor that stands, after `lead` characters
/// holding no cell marker, at the start of well-formed cells followed by
/// the row's closing marker yields exactly the cleaned cell contents.
proof fn lemma_cells_text_bridge(
    row: Seq<char>,
    pos: int,
    lead: int,
    cells: Seq<(bool, Seq<char>)>,
)
    requires
        0 <= pos,
        0 <= lead,
        pos + lead <= row.len(),
        row.skip(pos + lead) == cells_text(cells) + crate::scan::pat_tr_close(),
        forall|k: int|
            pos <= k < pos + lead ==> !crate::scan::matches_at(row, crate::scan::pat_td(), k)
                && !crate::scan::matches_at(row, crate::scan::pat_th(), k),
        contents_wf(cells),
    ensures
        crate::extract::spec_cells(row, pos) == cells.map_values(
            |c: (bool, Seq<char>)| spec_clean(c.1),
        ),
    decreases cells.len(),
{
    let start = pos + lead;
    let suffix = cells_text(cells) + crate::scan::pat_tr_close();
    assert(row.len() == start + suffix.len());
    assert(forall|k: int| 0 <= k < suffix.len() ==> row[start + k] == (#[trigger] suffix[k]));
    if cells.len() == 0 {
        assert(suffix =~= crate::scan::pat_tr_close());
        assert(suffix[0] == '<' && suffix[1] == '/' && suffix[2] == 't');
        assert(row[start + 0] == '<' && row[start + 1] == '/' && row[start + 2] == 't');
        assert forall|k: int|
            pos <= k implies !crate::scan::matches_at(row, crate::scan::pat_td(), k)
            && !crate::scan::matches_at(row, crate::scan::pat_th(), k) by {
            if start <= k && k + 3 <= row.len() {
                assert(row.len() == start + 5);
                if crate::scan::matches_at(row, crate::scan::pat_td(), k) {
                    assert(crate::scan::lower_char(row[k + 0]) == crate::scan::pat_td()[0]);
                    crate::scan::lemma_lower_char_nonletter(row[k], '<');
                    assert(row[k] == '<');
                    assert(k == start);
                    assert(crate::scan::lower_char(row[k + 1]) == crate::scan::pat_td()[1]);
                    assert(crate::scan::lower_char(row[start + 1]) == '/');
                }
                if crate::scan::matches_at(row, crate::scan::pat_th(), k) {
                    assert(crate::scan::lower_char(row[k + 0]) == crate::scan::pat_th()[0]);
                    crate::scan::lemma_lower_char_nonletter(row[k], '<');
                    assert(row[k] == '<');
                    assert(k == start);
                    assert(crate::scan::lower_char(row[k + 1]) == crate::scan::pat_th()[1]);
                    assert(crate::scan::lower_char(row[start + 1]) == '/');
                }
            }
        }
        lemma_find_props(row, crate::scan::pat_td(), pos);
        lemma_find_props(row, crate::scan::pat_th(), pos);
        assert(crate::extract::spec_cell_start(row, pos) is None);
        assert(cells.map_values(|c: (bool, Seq<char>)| spec_clean(c.1)) =~= Seq::<
            Seq<char>,
        >::empty());
    } else {
        let is_th = cells[0].0;
        let c0 = cells[0].1;
        let l0 = c0.len() as int;
        let this_cell = cell_text(is_th, c0);
        let rest_suffix = cells_text(cells.drop_first()) + crate::scan::pat_tr_close();
        assert(cells_text(cells) == this_cell + cells_text(cells.drop_first()));
        assert(suffix =~= this_cell + rest_suffix);
        assert(forall|k: int| 0 <= k < this_cell.len() ==> (#[trigger] suffix[k])
            == this_cell[k]);
        assert(forall|k: int| 0 <= k < rest_suffix.len() ==> suffix[this_cell.len() + k] == (
        #[trigger] rest_suffix[k]));
        let tag2 = if is_th {
            'h'
        } else {
            'd'
        };
        assert(this_cell.len() == 9 + l0);
        // The characters of this cell's span, one by one.
        assert(this_cell[0] == '<' && this_cell[1] == 't' && this_cell[2] == tag2 && this_cell[3]
            == '>');
        assert(suffix[0] == '<' && suffix[1] == 't' && suffix[2] == tag2 && suffix[3] == '>');
        assert(row[start + 0] == '<' && row[start + 1] == 't' && row[start + 2] == tag2 && row[
            start + 3
        ] == '>');
        assert forall|k: int| 0 <= k < l0 implies row[start + 4 + k] == (#[trigger] c0[k]) by {
            assert(this_cell[4 + k] == c0[k]);
            assert(suffix[4 + k] == this_cell[4 + k]);
            assert(row[start + (4 + k)] == suffix[4 + k]);
        }
        let clpos = start + 4 + l0;
        assert(this_cell[4 + l0] == '<' && this_cell[5 + l0] == '/' && this_cell[6 + l0] == 't'
            && this_cell[7 + l0] == tag2 && this_cell[8 + l0] == '>');
        assert(suffix[4 + l0] == '<' && suffix[5 + l0] == '/' && suffix[6 + l0] == 't' && suffix[7
            + l0] == tag2 && suffix[8 + l0] == '>');
        assert(row[start + (4 + l0)] == '<' && row[start + (5 + l0)] == '/' && row[start + (6
            + l0)] == 't' && row[start + (7 + l0)] == tag2 && row[start + (8 + l0)] == '>');
        assert(row[clpos] == '<' && row[clpos + 1] == '/' && row[clpos + 2] == 't' && row[clpos
            + 3] == tag2 && row[clpos + 4] == '>');
        let own_pat = if is_th {
            crate::scan::pat_th()
        } else {
            crate::scan::pat_td()
        };
        let other_pat = if is_th {
            crate::scan::pat_td()
        } else {
            crate::scan::pat_th()
        };
        let close_pat = if is_th {
            crate::scan::pat_th_close()
        } else {
            crate::scan::pat_td_close()
        };
        lemma_matches3(row, own_pat, start);
        assert(!crate::scan::matches_at(row, other_pat, start)) by {
            assert(other_pat[2] != tag2);
            assert(crate::scan::lower_char(row[start + 2]) == tag2);
        }
        crate::scan::lemma_find_exact(row, own_pat, pos, start);
        lemma_find_props(row, other_pat, pos);
        assert(crate::extract::spec_cell_start(row, pos) == Some(start));
        assert(crate::scan::matches_at(row, crate::scan::pat_th(), start) == is_th) by {
            if is_th {
            } else {
                assert(crate::scan::pat_th()[2] != tag2);
                assert(crate::scan::lower_char(row[start + 2]) == tag2);
            }
        }
        // The closing marker is the first match of the closing pattern.
        lemma_matches5(row, close_pat, clpos);
        assert forall|k: int|
            start <= k < clpos implies !crate::scan::matches_at(row, close_pat, k) by {
            if crate::scan::matches_at(row, close_pat, k) {
                assert(crate::scan::lower_char(row[k + 0]) == close_pat[0]);
                crate::scan::lemma_lower_char_nonletter(row[k], '<');
                assert(row[k] == '<');
                if start + 4 <= k {
                    let j = k - (start + 4);
                    assert(row[start + 4 + j] == c0[j]);
                    assert(c0[j] != '<');
                } else {
                    assert(k == start);
                    assert(crate::scan::lower_char(row[k + 1]) == close_pat[1]);
                    assert(crate::scan::lower_char(row[start + 1]) == 't');
                }
            }
        }
        crate::scan::lemma_find_exact(row, close_pat, start, clpos);
        // The opening tag's `>` is the first match of `>`.
        lemma_matches1(row, crate::scan::pat_gt(), start + 3);
        assert forall|k: int|
            start <= k < start + 3 implies !crate::scan::matches_at(
            row,
            crate::scan::pat_gt(),
            k,
        ) by {
            if crate::scan::matches_at(row, crate::scan::pat_gt(), k) {
                assert(crate::scan::lower_char(row[k + 0]) == crate::scan::pat_gt()[0]);
                crate::scan::lemma_lower_char_nonletter(row[k], '>');
                assert(row[k] == '>');
                assert(k == start || k == start + 1 || k == start + 2);
            }
        }
        crate::scan::lemma_find_exact(row, crate::scan::pat_gt(), start, start + 3);
        // The raw content is exactly the constructed content.
        let g = start + 3;
        assert(g < clpos);
        let content: Seq<char> = if g + 1 < clpos {
            row.subrange(g + 1, clpos)
        } else {
            Seq::empty()
        };
        assert(content =~= c0);
        // One step of the scan, then the rest of the cells.
        assert forall|k: int| 0 <= k < rest_suffix.len() implies row[clpos + 5 + k] == (
        #[trigger] rest_suffix[k]) by {
            assert(suffix[this_cell.len() + k] == rest_suffix[k]);
            assert(row[start + (this_cell.len() + k)] == suffix[this_cell.len() + k]);
        }
        assert(row.skip(clpos + 5) =~= rest_suffix);
        assert(forall|k: int| 0 <= k < cells.drop_first().len() ==> (#[trigger] cells.drop_first()[
            k
        ]) == cells[k + 1]);
        lemma_cells_text_bridge(row, clpos + 5, 0, cells.drop_first());
        assert(crate::extract::spec_cells(row, pos) == seq![spec_clean(c0)]
            + crate::extract::spec_cells(row, clpos + 5));
        assert(cells.map_values(|c: (bool, Seq<char>)| spec_clean(c.1)) =~= seq![spec_clean(c0)]
            + cells.drop_first().map_values(|c: (bool, Seq<char>)| spec_clean(c.1)));
    }
}

/// A well-formed row — `<tr>`, then cells each opened by `<td>` or
/// `<th>`, holding marker-free content, and closed by the matching
/// marker, then `</tr>` — yields exactly one cleaned cell per well-formed
/// pair, in order, independent of the th/td mix.
pub proof fn lemma_well_formed_row_cells(cells: Seq<(bool, Seq<char>)>)
    requires
        contents_wf(cells),
    ensures
        crate::extract::spec_cells(row_text(cells), 0) == cells.map_values(
            |c: (bool, Seq<char>)| spec_clean(c.1),
        ),
        crate::extract::spec_cells(row_text(cells), 0).len() == cells.len(),
{
    let row = row_text(cells);
    assert(row[0] == '<' && row[1] == 't' && row[2] == 'r' && row[3] == '>');
    assert forall|k: int|
        0 <= k < 4 implies !crate::scan::matches_at(row, crate::scan::pat_td(), k)
        && !crate::scan::matches_at(row, crate::scan::pat_th(), k) by {
        if crate::scan::matches_at(row, crate::scan::pat_td(), k) {
            crate::scan::lemma_lower_char_nonletter(row[k], '<');
            assert(row[k] == '<');
            assert(k == 0);
            assert(crate::scan::lower_char(row[2]) == 'r');
        }
        if crate::scan::matches_at(row, crate::scan::pat_th(), k) {
            crate::scan::lemma_lower_char_nonletter(row[k], '<');
            assert(row[k] == '<');
            assert(k == 0);
            assert(crate::scan::lower_char(row[2]) == 'r');
        }
    }
    assert(row.skip(4) =~= cells_text(cells) + crate::scan::pat_tr_close());
    lemma_cells_text_bridge(row, 0, 4, cells);
}

/// The concatenated text of a sequence of well-formed rows.
pub open spec fn rows_text(rows: Seq<Seq<(bool, Seq<char>)>>) -> Seq<char>
    decreases rows.len(),
{
    if rows.len() == 0 {
        Seq::empty()
    } else {
        row_text(rows[0]) + rows_text(rows.drop_first())
    }
}

/// Well-formed rows: every cell content is marker-free and every row
/// holds at least one cell.
pub open spec fn rows_wf(rows: Seq<Seq<(bool, Seq<char>)>>) -> bool {
    forall|i: int|
        0 <= i < rows.len() ==> contents_wf(#[trigger] rows[i]) && rows[i].len() > 0
}

/// The cleaned cells of well-formed rows.
pub open spec fn rows_cleaned(rows: Seq<Seq<(bool, Seq<char>)>>) -> Seq<Seq<Seq<char>>> {
    rows.map_values(|r: Seq<(bool, Seq<char>)>| r.map_values(|c: (bool, Seq<char>)| spec_clean(c.1)))
}

/// Inside the span of well-formed cells there is no row-closing marker:
/// every `<` there opens a cell tag or a cell-closing tag, and neither
/// matches `</tr>`.
proof fn lemma_cells_no_close(
    table: Seq<char>,
    base: int,
    cs: Seq<(bool, Seq<char>)>,
    pat: Seq<char>,
)
    requires
        0 <= base,
        base + cells_text(cs).len() <= table.len(),
        forall|m: int| 0 <= m < cells_text(cs).len() ==> table[base + m] == (
        #[trigger] cells_text(cs)[m]),
        contents_wf(cs),
        pat.len() >= 4,
        pat[0] == '<',
        pat[1] == '/',
        pat[3] != 'd' && pat[3] != 'h',
    ensures
        forall|k: int| base <= k < base + cells_text(cs).len() ==> !crate::scan::matches_at(
            table,
            pat,
            k,
        ),
    decreases cs.len(),
{
    if cs.len() > 0 {
        let is_th = cs[0].0;
        let c0 = cs[0].1;
        let l0 = c0.len() as int;
        let this_cell = cell_text(is_th, c0);
        let ct = cells_text(cs);
        let rest_ct = cells_text(cs.drop_first());
        assert(ct == this_cell + rest_ct);
        assert(forall|k: int| 0 <= k < this_cell.len() ==> (#[trigger] ct[k]) == this_cell[k]);
        assert(forall|k: int| 0 <= k < rest_ct.len() ==> ct[this_cell.len() + k] == (
        #[trigger] rest_ct[k]));
        let tag2 = if is_th {
            'h'
        } else {
            'd'
        };
        assert(this_cell.len() == 9 + l0);
        assert(this_cell[0] == '<' && this_cell[1] == 't' && this_cell[2] == tag2 && this_cell[3]
            == '>');
        assert(ct[0] == '<' && ct[1] == 't' && ct[2] == tag2 && ct[3] == '>');
        assert(table[base + 0] == '<' && table[base + 1] == 't' && table[base + 2] == tag2
            && table[base + 3] == '>');
        assert forall|k: int| 0 <= k < l0 implies table[base + 4 + k] == (#[trigger] c0[k]) by {
            assert(this_cell[4 + k] == c0[k]);
            assert(ct[4 + k] == this_cell[4 + k]);
            assert(table[base + (4 + k)] == ct[4 + k]);
        }
        assert(this_cell[4 + l0] == '<' && this_cell[5 + l0] == '/' && this_cell[6 + l0] == 't'
            && this_cell[7 + l0] == tag2 && this_cell[8 + l0] == '>');
        assert(ct[4 + l0] == '<' && ct[5 + l0] == '/' && ct[6 + l0] == 't' && ct[7 + l0] == tag2
            && ct[8 + l0] == '>');
        assert(table[base + (4 + l0)] == '<' && table[base + (5 + l0)] == '/' && table[base + (6
            + l0)] == 't' && table[base + (7 + l0)] == tag2 && table[base + (8 + l0)] == '>');
        assert forall|m: int| 0 <= m < rest_ct.len() implies table[(base + this_cell.len()) + m]
            == (#[trigger] rest_ct[m]) by {
            assert(ct[this_cell.len() + m] == rest_ct[m]);
            assert(table[base + (this_cell.len() + m)] == ct[this_cell.len() + m]);
        }
        lemma_cells_no_close(table, base + this_cell.len(), cs.drop_first(), pat);
        assert forall|k: int|
            base <= k < base + ct.len() implies !crate::scan::matches_at(table, pat, k) by {
            if crate::scan::matches_at(table, pat, k) {
                if k < base + this_cell.len() {
                    assert(crate::scan::lower_char(table[k + 0]) == pat[0]);
                    crate::scan::lemma_lower_char_nonletter(table[k], '<');
                    assert(table[k] == '<');
                    if base + 4 <= k < base + 4 + l0 {
                        let j = k - (base + 4);
                        assert(table[base + 4 + j] == c0[j]);
                        assert(c0[j] != '<');
                    } else if k == base {
                        assert(crate::scan::lower_char(table[k + 1]) == pat[1]);
                        assert(table[base + 1] == 't');
                    } else {
                        assert(k == base + 4 + l0);
                        assert(crate::scan::lower_char(table[k + 3]) == pat[3]);
                        assert(table[base + (7 + l0)] == tag2);
                    }
                }
            }
        }
    }
}

/// Scanning a table from a cursor that stands, after `lead` characters
/// holding no row marker, at the start of well-formed rows followed by
/// the table's closing marker yields exactly the cleaned rows.
proof fn lemma_rows_text_bridge(
    table: Seq<char>,
    pos: int,
    lead: int,
    rows: Seq<Seq<(bool, Seq<char>)>>,
)
    requires
        0 <= pos,
        0 <= lead,
        pos + lead <= table.len(),
        table.skip(pos + lead) == rows_text(rows) + crate::scan::pat_table_close(),
        forall|k: int|
            pos <= k < pos + lead ==> !crate::scan::matches_at(table, crate::scan::pat_tr(), k),
        rows_wf(rows),
    ensures
        crate::extract::spec_rows(table, pos) == rows_cleaned(rows),
    decreases rows.len(),
{
    let start = pos + lead;
    let suffix = rows_text(rows) + crate::scan::pat_table_close();
    assert(table.len() == start + suffix.len());
    assert(forall|k: int| 0 <= k < suffix.len() ==> table[start + k] == (#[trigger] suffix[k]));
    if rows.len() == 0 {
        assert(suffix =~= crate::scan::pat_table_close());
        assert(suffix[0] == '<' && suffix[1] == '/');
        assert(table[start + 0] == '<' && table[start + 1] == '/');
        assert forall|k: int|
            pos <= k implies !crate::scan::matches_at(table, crate::scan::pat_tr(), k) by {
            if start <= k && k + 3 <= table.len() && crate::scan::matches_at(
                table,
                crate::scan::pat_tr(),
                k,
            ) {
                assert(table.len() == start + 8);
                assert(crate::scan::lower_char(table[k + 0]) == crate::scan::pat_tr()[0]);
                crate::scan::lemma_lower_char_nonletter(table[k], '<');
                assert(table[k] == '<');
                assert(k == start);
                assert(crate::scan::lower_char(table[k + 1]) == crate::scan::pat_tr()[1]);
                assert(crate::scan::lower_char(table[start + 1]) == '/');
            }
        }
        lemma_find_props(table, crate::scan::pat_tr(), pos);
        assert(spec_find(table, crate::scan::pat_tr(), pos) is None);
        assert(rows_cleaned(rows) =~= Seq::<Seq<Seq<char>>>::empty());
    } else {
        let r0 = rows[0];
        let this_row = row_text(r0);
        let ct = cells_text(r0);
        let rest_suffix = rows_text(rows.drop_first()) + crate::scan::pat_table_close();
        assert(rows_text(rows) == this_row + rows_text(rows.drop_first()));
        assert(suffix =~= this_row + rest_suffix);
        assert(forall|k: int| 0 <= k < this_row.len() ==> (#[trigger] suffix[k]) == this_row[k]);
        assert(forall|k: int| 0 <= k < rest_suffix.len() ==> suffix[this_row.len() + k] == (
        #[trigger] rest_suffix[k]));
        assert(this_row.len() == 9 + ct.len());
        assert(this_row[0] == '<' && this_row[1] == 't' && this_row[2] == 'r' && this_row[3]
            == '>');
        assert(suffix[0] == '<' && suffix[1] == 't' && suffix[2] == 'r' && suffix[3] == '>');
        assert(table[start + 0] == '<' && table[start + 1] == 't' && table[start + 2] == 'r'
            && table[start + 3] == '>');
        assert forall|m: int| 0 <= m < ct.len() implies table[(start + 4) + m] == (#[trigger] ct[
            m
        ]) by {
            assert(this_row[4 + m] == ct[m]);
            assert(suffix[4 + m] == this_row[4 + m]);
            assert(table[start + (4 + m)] == suffix[4 + m]);
        }
        let rcpos = start + 4 + ct.len() as int;
        assert(this_row[4 + ct.len() as int] == '<' && this_row[5 + ct.len() as int] == '/'
            && this_row[6 + ct.len() as int] == 't' && this_row[7 + ct.len() as int] == 'r'
            && this_row[8 + ct.len() as int] == '>');
        assert(suffix[4 + ct.len() as int] == '<' && suffix[5 + ct.len() as int] == '/' && suffix[6 + ct.len() as int]
            == 't' && suffix[7 + ct.len() as int] == 'r' && suffix[8 + ct.len() as int] == '>');
        assert(table[start + (4 + ct.len() as int)] == '<' && table[start + (5 + ct.len() as int)] == '/'
            && table[start + (6 + ct.len() as int)] == 't' && table[start + (7 + ct.len() as int)] == 'r'
            && table[start + (8 + ct.len() as int)] == '>');
        assert(table[rcpos] == '<' && table[rcpos + 1] == '/' && table[rcpos + 2] == 't' && table[
            rcpos + 3
        ] == 'r' && table[rcpos + 4] == '>');
        // The row's opening marker is the first `<tr` at or after `pos`.
        lemma_matches3(table, crate::scan::pat_tr(), start);
        crate::scan::lemma_find_exact(table, crate::scan::pat_tr(), pos, start);
        // The row's closing marker is the first `</tr>` at or after its start.
        lemma_matches5(table, crate::scan::pat_tr_close(), rcpos);
        assert(contents_wf(r0));
        lemma_cells_no_close(table, start + 4, r0, crate::scan::pat_tr_close());
        assert forall|k: int|
            start <= k < rcpos implies !crate::scan::matches_at(
            table,
            crate::scan::pat_tr_close(),
            k,
        ) by {
            if crate::scan::matches_at(table, crate::scan::pat_tr_close(), k) {
                if k < start + 4 {
                    assert(crate::scan::lower_char(table[k + 0])
                        == crate::scan::pat_tr_close()[0]);
                    crate::scan::lemma_lower_char_nonletter(table[k], '<');
                    assert(table[k] == '<');
                    assert(k == start);
                    assert(crate::scan::lower_char(table[k + 1])
                        == crate::scan::pat_tr_close()[1]);
                    assert(crate::scan::lower_char(table[start + 1]) == 't');
                }
            }
        }
        crate::scan::lemma_find_exact(table, crate::scan::pat_tr_close(), start, rcpos);
        // The row span is exactly the constructed row text.
        let span = table.subrange(start, rcpos + 5);
        assert(span =~= this_row);
        lemma_well_formed_row_cells(r0);
        let cleaned_cells = r0.map_values(|c: (bool, Seq<char>)| spec_clean(c.1));
        assert(crate::extract::spec_cells(span, 0) == cleaned_cells);
        assert(cleaned_cells.len() == r0.len());
        assert(r0.len() > 0);
        // The remaining rows.
        assert forall|k: int| 0 <= k < rest_suffix.len() implies table[(rcpos + 5) + k] == (
        #[trigger] rest_suffix[k]) by {
            assert(suffix[this_row.len() + k] == rest_suffix[k]);
            assert(table[start + (this_row.len() + k)] == suffix[this_row.len() + k]);
        }
        assert(table.skip(rcpos + 5) =~= rest_suffix);
        assert(forall|i: int| 0 <= i < rows.drop_first().len() ==> (#[trigger] rows.drop_first()[
            i
        ]) == rows[i + 1]);
        lemma_rows_text_bridge(table, rcpos + 5, 0, rows.drop_first());
        assert(crate::extract::spec_rows(table, pos) == seq![cleaned_cells]
            + crate::extract::spec_rows(table, rcpos + 5));
        assert(rows_cleaned(rows) =~= seq![cleaned_cells] + rows_cleaned(rows.drop_first()));
    }
}

/// Inside the span of well-formed rows there is no match of a closing
/// pattern whose fourth character is none of `d`, `h`, `r`: every `<`
/// there opens `<tr>`, a cell tag, a cell-closing tag, or `</tr>`.
proof fn lemma_rows_no_close(
    table: Seq<char>,
    base: int,
    rows: Seq<Seq<(bool, Seq<char>)>>,
    pat: Seq<char>,
)
    requires
        0 <= base,
        base + rows_text(rows).len() <= table.len(),
        forall|m: int| 0 <= m < rows_text(rows).len() ==> table[base + m] == (
        #[trigger] rows_text(rows)[m]),
        rows_wf(rows),
        pat.len() >= 4,
        pat[0] == '<',
        pat[1] == '/',
        pat[3] != 'd' && pat[3] != 'h' && pat[3] != 'r',
    ensures
        forall|k: int| base <= k < base + rows_text(rows).len() ==> !crate::scan::matches_at(
            table,
            pat,
            k,
        ),
    decreases rows.len(),
{
    if rows.len() > 0 {
        let r0 = rows[0];
        let this_row = row_text(r0);
        let ct = cells_text(r0);
        let rt = rows_text(rows);
        let rest_rt = rows_text(rows.drop_first());
        assert(rt == this_row + rest_rt);
        assert(forall|k: int| 0 <= k < this_row.len() ==> (#[trigger] rt[k]) == this_row[k]);
        assert(forall|k: int| 0 <= k < rest_rt.len() ==> rt[this_row.len() + k] == (
        #[trigger] rest_rt[k]));
        assert(this_row.len() == 9 + ct.len());
        assert(this_row[0] == '<' && this_row[1] == 't' && this_row[2] == 'r' && this_row[3]
            == '>');
        assert(rt[0] == '<' && rt[1] == 't' && rt[2] == 'r' && rt[3] == '>');
        assert(table[base + 0] == '<' && table[base + 1] == 't' && table[base + 2] == 'r'
            && table[base + 3] == '>');
        assert forall|m: int| 0 <= m < ct.len() implies table[(base + 4) + m] == (#[trigger] ct[
            m
        ]) by {
            assert(this_row[4 + m] == ct[m]);
            assert(rt[4 + m] == this_row[4 + m]);
            assert(table[base + (4 + m)] == rt[4 + m]);
        }
        let rcpos = base + 4 + ct.len() as int;
        assert(this_row[4 + ct.len() as int] == '<' && this_row[5 + ct.len() as int] == '/'
            && this_row[6 + ct.len() as int] == 't' && this_row[7 + ct.len() as int] == 'r'
            && this_row[8 + ct.len() as int] == '>');
        assert(rt[4 + ct.len() as int] == '<' && rt[5 + ct.len() as int] == '/' && rt[6 + ct.len()
            as int] == 't' && rt[7 + ct.len() as int] == 'r' && rt[8 + ct.len() as int] == '>');
        assert(table[base + (4 + ct.len() as int)] == '<' && table[base + (5 + ct.len() as int)]
            == '/' && table[base + (6 + ct.len() as int)] == 't' && table[base + (7 + ct.len()
            as int)] == 'r' && table[base + (8 + ct.len() as int)] == '>');
        assert(table[rcpos] == '<' && table[rcpos + 1] == '/' && table[rcpos + 2] == 't' && table[
            rcpos + 3
        ] == 'r' && table[rcpos + 4] == '>');
        assert(contents_wf(r0));
        lemma_cells_no_close(table, base + 4, r0, pat);
        assert forall|m: int| 0 <= m < rest_rt.len() implies table[(base + this_row.len()) + m]
            == (#[trigger] rest_rt[m]) by {
            assert(rt[this_row.len() + m] == rest_rt[m]);
            assert(table[base + (this_row.len() + m)] == rt[this_row.len() + m]);
        }
        lemma_rows_no_close(table, base + this_row.len(), rows.drop_first(), pat);
        assert forall|k: int|
            base <= k < base + rt.len() implies !crate::scan::matches_at(table, pat, k) by {
            if crate::scan::matches_at(table, pat, k) {
                if k < base + this_row.len() {
                    if base + 4 <= k < rcpos {
                    } else {
                        assert(crate::scan::lower_char(table[k + 0]) == pat[0]);
                        crate::scan::lemma_lower_char_nonletter(table[k], '<');
                        assert(table[k] == '<');
                        if k == base {
                            assert(crate::scan::lower_char(table[k + 1]) == pat[1]);
                            assert(table[base + 1] == 't');
                        } else {
                            assert(k == rcpos);
                            assert(crate::scan::lower_char(table[k + 3]) == pat[3]);
                            assert(table[rcpos + 3] == 'r');
                        }
                    }
                }
            }
        }
    }
}

/// The opening tag that starts a well-formed table region.
pub open spec fn table_open_text() -> Seq<char> {
    seq!['<', 't', 'a', 'b', 'l', 'e', '>']
}

/// A well-formed single-table document: text without tag delimiters,
/// then `<table>`, the rows, `</table>`, and again text without tag
/// delimiters.
pub open spec fn doc_text(
    pre: Seq<char>,
    rows: Seq<Seq<(bool, Seq<char>)>>,
    post: Seq<char>,
) -> Seq<char> {
    pre + table_open_text() + rows_text(rows) + crate::scan::pat_table_close() + post
}

/// Scanning a well-formed single-table document finds exactly its one
/// table region, whose extracted rows are exactly the cleaned
/// constructed rows.
#[verifier::rlimit(100)]
pub proof fn lemma_well_formed_doc(
    pre: Seq<char>,
    rows: Seq<Seq<(bool, Seq<char>)>>,
    post: Seq<char>,
)
    requires
        avoids(pre, '<'),
        avoids(post, '<'),
        rows_wf(rows),
    ensures
        ({
            let text = doc_text(pre, rows, post);
            let ts = pre.len() as int;
            let tc = ts + 7 + rows_text(rows).len() as int;
            &&& spec_find(text, pat_table(), 0) == Some(ts)
            &&& spec_find(text, pat_table_close(), ts) == Some(tc)
            &&& spec_find(text, pat_table(), tc + 8) is None
            &&& crate::extract::spec_rows(spec_first_table(text), 0) == rows_cleaned(rows)
        }),
{
    let text = doc_text(pre, rows, post);
    let rt = rows_text(rows);
    let ts = pre.len() as int;
    let tc = ts + 7 + rt.len() as int;
    let span = table_open_text() + rt + crate::scan::pat_table_close();
    assert(span.len() == 15 + rt.len());
    assert(text =~= (pre + span) + post);
    assert(text.len() == pre.len() + span.len() + post.len());
    assert forall|k: int| 0 <= k < pre.len() implies text[k] == (#[trigger] pre[k]) by {
        assert((pre + span)[k] == pre[k]);
        assert(text[k] == (pre + span)[k]);
    }
    assert forall|k: int| 0 <= k < span.len() implies text[ts + k] == (#[trigger] span[k]) by {
        assert((pre + span)[pre.len() + k] == span[k]);
        assert(text[pre.len() + k] == (pre + span)[pre.len() + k]);
    }
    assert forall|k: int| 0 <= k < post.len() implies text[(tc + 8) + k] == (#[trigger] post[
        k
    ]) by {
        assert(text[(pre.len() + span.len()) + k] == post[k]);
    }
    // The characters of the two table markers.
    assert(forall|k: int| 0 <= k < 7 ==> (#[trigger] span[k]) == table_open_text()[k]);
    assert(span[0] == '<' && span[1] == 't' && span[2] == 'a' && span[3] == 'b' && span[4] == 'l'
        && span[5] == 'e' && span[6] == '>');
    assert(text[ts + 0] == '<' && text[ts + 1] == 't' && text[ts + 2] == 'a' && text[ts + 3]
        == 'b' && text[ts + 4] == 'l' && text[ts + 5] == 'e' && text[ts + 6] == '>');
    assert forall|m: int| 0 <= m < rt.len() implies text[(ts + 7) + m] == (#[trigger] rt[m]) by {
        assert(span[7 + m] == rt[m]) by {
            assert((table_open_text() + rt)[7 + m] == rt[m]);
            assert(span[7 + m] == (table_open_text() + rt)[7 + m]);
        }
        assert(text[ts + (7 + m)] == span[7 + m]);
    }
    assert forall|j: int| 0 <= j < 8 implies text[tc + j] == (#[trigger] crate::scan
        ::pat_table_close()[j]) by {
        assert(span[(7 + rt.len() as int) + j] == crate::scan::pat_table_close()[j]);
        assert(text[ts + ((7 + rt.len() as int) + j)] == span[(7 + rt.len() as int) + j]);
    }
    assert(text[tc + 0] == '<' && text[tc + 1] == '/' && text[tc + 2] == 't' && text[tc + 3]
        == 'a' && text[tc + 4] == 'b' && text[tc + 5] == 'l' && text[tc + 6] == 'e' && text[tc + 7]
        == '>');
    // The opening marker is the first `<table` of the document.
    lemma_matches6(text, pat_table(), ts);
    assert forall|k: int| 0 <= k < ts implies !crate::scan::matches_at(text, pat_table(), k) by {
        if crate::scan::matches_at(text, pat_table(), k) {
            assert(crate::scan::lower_char(text[k + 0]) == pat_table()[0]);
            crate::scan::lemma_lower_char_nonletter(text[k], '<');
            assert(text[k] == '<');
            assert(pre[k] != '<');
        }
    }
    crate::scan::lemma_find_exact(text, pat_table(), 0, ts);
    // The closing marker is the first `</table>` at or after the opening.
    lemma_matches8(text, crate::scan::pat_table_close(), tc);
    lemma_rows_no_close(text, ts + 7, rows, crate::scan::pat_table_close());
    assert forall|k: int|
        ts <= k < tc implies !crate::scan::matches_at(text, crate::scan::pat_table_close(), k) by {
        if crate::scan::matches_at(text, crate::scan::pat_table_close(), k) {
            if ts + 7 <= k {
            } else {
                assert(crate::scan::lower_char(text[k + 0]) == crate::scan::pat_table_close()[0]);
                crate::scan::lemma_lower_char_nonletter(text[k], '<');
                assert(text[k] == '<');
                assert(k == ts);
                assert(crate::scan::lower_char(text[k + 1]) == crate::scan::pat_table_close()[1]);
                assert(text[ts + 1] == 't');
            }
        }
    }
    crate::scan::lemma_find_exact(text, crate::scan::pat_table_close(), ts, tc);
    // No further table region after the closing marker.
    assert forall|k: int| tc + 8 <= k implies !crate::scan::matches_at(text, pat_table(), k) by {
        if k + 6 <= text.len() && crate::scan::matches_at(text, pat_table(), k) {
            assert(crate::scan::lower_char(text[k + 0]) == pat_table()[0]);
            crate::scan::lemma_lower_char_nonletter(text[k], '<');
            assert(text[k] == '<');
            assert(text[(tc + 8) + (k - (tc + 8))] == post[k - (tc + 8)]);
            assert(post[k - (tc + 8)] != '<');
        }
    }
    lemma_find_props(text, pat_table(), tc + 8);
    assert(spec_find(text, pat_table(), tc + 8) is None);
    // The region is the constructed table span, and its rows are the
    // constructed rows, cleaned.
    assert(spec_first_table(text) =~= span);
    assert forall|k: int| 0 <= k < 7 implies !crate::scan::matches_at(
        span,
        crate::scan::pat_tr(),
        k,
    ) by {
        if crate::scan::matches_at(span, crate::scan::pat_tr(), k) {
            assert(crate::scan::lower_char(span[k + 0]) == crate::scan::pat_tr()[0]);
            crate::scan::lemma_lower_char_nonletter(span[k], '<');
            assert(span[k] == '<');
            assert(k == 0);
            assert(crate::scan::lower_char(span[k + 2]) == crate::scan::pat_tr()[2]);
            assert(span[2] == 'a');
        }
    }
    assert(span.skip(7) =~= rt + crate::scan::pat_table_close());
    lemma_rows_text_bridge(span, 0, 7, rows);
}

/// The rows of a well-formed single-table document: one header row of
/// `<th>` cells, then data rows of `<td>` cells.
pub open spec fn wf_rows_of(header: Seq<Seq<char>>, data: Seq<Seq<Seq<char>>>) -> Seq<
    Seq<(bool, Seq<char>)>,
> {
    seq![header.map_values(|c: Seq<char>| (true, c))] + data.map_values(
        |r: Seq<Seq<char>>| r.map_values(|c: Seq<char>| (false, c)),
    )
}

/// The single-table shape law over raw markup: a well-formed single-table
/// document — one `<table>` holding a header row of N `<th>` cells and M
/// data rows of N `<td>` cells each, all contents marker-free, with no
/// tag delimiter outside the table — yields one newline-terminated line
/// per kept row (M+1, or M with headers suppressed), each line the join
/// of exactly N fields with the configured delimiter.
pub proof fn lemma_well_formed_single_table_output(
    pre: Seq<char>,
    header: Seq<Seq<char>>,
    data: Seq<Seq<Seq<char>>>,
    post: Seq<char>,
    opts: OptionsV,
)
    requires
        avoids(pre, '<'),
        avoids(post, '<'),
        header.len() >= 1,
        forall|k: int|
            0 <= k < header.len() ==> avoids(#[trigger] header[k], '<') && avoids(
                header[k],
                '>',
            ),
        forall|i: int| 0 <= i < data.len() ==> (#[trigger] data[i]).len() == header.len(),
        forall|i: int, k: int|
            0 <= i < data.len() && 0 <= k < data[i].len() ==> avoids(
                #[trigger] data[i][k],
                '<',
            ) && avoids(data[i][k], '>'),
        opts.show_fields.len() == 0,
        opts.delimiter != '\n',
    ensures
        ({
            let text = doc_text(pre, wf_rows_of(header, data), post);
            let rows = crate::extract::spec_rows(spec_first_table(text), 0);
            let kept = crate::pipeline::spec_kept_rows(rows, opts);
            &&& rows.len() == data.len() + 1
            &&& spec_csv_body(text, 0, opts) == spec_row_lines(kept, opts)
            &&& kept.len() == (if opts.no_header {
                data.len() as int
            } else {
                data.len() as int + 1
            })
            &&& count_char(spec_row_lines(kept, opts), '\n') == kept.len()
            &&& forall|i: int|
                0 <= i < kept.len() ==> spec_format_row(#[trigger] kept[i], opts)
                    == crate::format::spec_join(
                    Seq::new(header.len(), |k: int| spec_field_text(kept[i], opts, k)),
                    opts.delimiter,
                )
            &&& kept.len() > 0 ==> spec_extract(text, opts) == spec_row_lines(kept, opts)
        }),
{
    let wf_rows = wf_rows_of(header, data);
    let hrow = header.map_values(|c: Seq<char>| (true, c));
    let drows = data.map_values(|r: Seq<Seq<char>>| r.map_values(|c: Seq<char>| (false, c)));
    assert(wf_rows.len() == data.len() + 1);
    assert forall|i: int|
        0 <= i < wf_rows.len() implies contents_wf(#[trigger] wf_rows[i]) && wf_rows[i].len()
        > 0 by {
        if i == 0 {
            assert(wf_rows[0] == hrow);
            assert(hrow.len() == header.len());
            assert forall|k: int|
                0 <= k < hrow.len() implies avoids((#[trigger] hrow[k]).1, '<') && avoids(
                hrow[k].1,
                '>',
            ) by {
                assert(hrow[k] == (true, header[k]));
            }
        } else {
            assert(wf_rows[i] == drows[i - 1]);
            assert(drows[i - 1] == data[i - 1].map_values(|c: Seq<char>| (false, c)));
            assert(wf_rows[i].len() == data[i - 1].len());
            assert forall|k: int|
                0 <= k < wf_rows[i].len() implies avoids((#[trigger] wf_rows[i][k]).1, '<')
                && avoids(wf_rows[i][k].1, '>') by {
                assert(wf_rows[i][k] == (false, data[i - 1][k]));
            }
        }
    }
    lemma_well_formed_doc(pre, wf_rows, post);
    let text = doc_text(pre, wf_rows, post);
    let rows = crate::extract::spec_rows(spec_first_table(text), 0);
    assert(rows == rows_cleaned(wf_rows));
    assert(rows.len() == data.len() + 1);
    assert forall|i: int| 0 <= i < rows.len() implies (#[trigger] rows[i]).len()
        == header.len() by {
        assert(rows[i] == wf_rows[i].map_values(|c: (bool, Seq<char>)| spec_clean(c.1)));
        if i == 0 {
            assert(wf_rows[0] == hrow);
        } else {
            assert(wf_rows[i] == drows[i - 1]);
            assert(wf_rows[i].len() == data[i - 1].len());
        }
    }
    lemma_single_table_shape(text, opts, header.len() as int);
}

/// Every extracted row holds at least one cell: a `<tr>` span that yields
/// no cells is dropped, never emitted as an empty row.
pub proof fn lemma_rows_nonempty(table: Seq<char>, pos: int)
    requires
        0 <= pos,
    ensures
        forall|i: int|
            0 <= i < crate::extract::spec_rows(table, pos).len() ==> (
            #[trigger] crate::extract::spec_rows(table, pos)[i]).len() > 0,
    decreases table.len() - pos,
{
    lemma_find_props(table, crate::scan::pat_tr(), pos);
    match spec_find(table, crate::scan::pat_tr(), pos) {
        None => {},
        Some(rs) => {
            lemma_find_props(table, crate::scan::pat_tr_close(), rs);
            match spec_find(table, crate::scan::pat_tr_close(), rs) {
                None => {},
                Some(rc) => {
                    lemma_rows_nonempty(table, rc + 5);
                    let cells = crate::extract::spec_cells(table.subrange(rs, rc + 5), 0);
                    let rest = crate::extract::spec_rows(table, rc + 5);
                    let rows = crate::extract::spec_rows(table, pos);
                    assert forall|i: int| 0 <= i < rows.len() implies rows[i].len() > 0 by {
                        if cells.len() > 0 {
                            assert(rows == seq![cells] + rest);
                            if i == 0 {
                                assert(rows[i] == cells);
                            } else {
                                assert(rows[i] == rest[i - 1]);
                            }
                        } else {
                            assert(rows == Seq::<Seq<Seq<char>>>::empty() + rest);
                            assert(rows[i] == rest[i]);
                        }
                    }
                },
            }
        },
    }
}

/// The span of the document's first table region: from its `<table`
/// marker through the nearest following `</table>`.
pub open spec fn spec_first_table(text: Seq<char>) -> Seq<char> {
    let ts = spec_find(text, pat_table(), 0)->0;
    let tc = spec_find(text, pat_table_close(), ts)->0;
    text.subrange(ts, tc + 8)
}

/// The shape of the output for a single-table document of uniform width:
/// with `n` cells in every extracted row, the output is exactly the kept
/// rows' lines, one newline per kept row — all the rows, or all but the
/// header — and every line is the join of exactly `n` fields with the
/// configured delimiter.
pub proof fn lemma_single_table_shape(text: Seq<char>, opts: OptionsV, n: int)
    requires
        opts.show_fields.len() == 0,
        opts.delimiter != '\n',
        n >= 1,
        spec_find(text, pat_table(), 0) is Some,
        spec_find(text, pat_table_close(), spec_find(text, pat_table(), 0)->0) is Some,
        spec_find(
            text,
            pat_table(),
            spec_find(text, pat_table_close(), spec_find(text, pat_table(), 0)->0)->0 + 8,
        ) is None,
        forall|i: int|
            0 <= i < crate::extract::spec_rows(spec_first_table(text), 0).len() ==> (
            #[trigger] crate::extract::spec_rows(spec_first_table(text), 0)[i]).len() == n,
    ensures
        ({
            let rows = crate::extract::spec_rows(spec_first_table(text), 0);
            let kept = crate::pipeline::spec_kept_rows(rows, opts);
            &&& spec_csv_body(text, 0, opts) == spec_row_lines(kept, opts)
            &&& kept.len() == (if opts.no_header && rows.len() > 0 {
                rows.len() - 1
            } else {
                rows.len() as int
            })
            &&& count_char(spec_row_lines(kept, opts), '\n') == kept.len()
            &&& forall|i: int|
                0 <= i < kept.len() ==> spec_format_row(#[trigger] kept[i], opts)
                    == crate::format::spec_join(
                    Seq::new(n as nat, |k: int| spec_field_text(kept[i], opts, k)),
                    opts.delimiter,
                )
            &&& kept.len() > 0 ==> spec_extract(text, opts) == spec_row_lines(kept, opts)
        }),
{
    let ts = spec_find(text, pat_table(), 0)->0;
    let tc = spec_find(text, pat_table_close(), ts)->0;
    lemma_find_props(text, pat_table(), 0);
    lemma_find_props(text, pat_table_close(), ts);
    let table = spec_first_table(text);
    let rows = crate::extract::spec_rows(table, 0);
    let kept = crate::pipeline::spec_kept_rows(rows, opts);
    assert(spec_csv_body(text, tc + 8, opts) == Seq::<char>::empty());
    assert(spec_csv_body(text, 0, opts) == crate::pipeline::spec_table_csv(table, opts)
        + spec_csv_body(text, tc + 8, opts));
    assert(spec_csv_body(text, 0, opts) =~= spec_row_lines(kept, opts));
    lemma_rows_no_newline(table, 0);
    assert(forall|i: int| 0 <= i < kept.len() ==> kept[i] == rows[i + (rows.len() - kept.len())]);
    assert forall|i: int| 0 <= i < kept.len() implies row_cells_ok(#[trigger] kept[i]) && kept[
        i
    ].len() > 0 by {
        assert(kept[i] == rows[i + (rows.len() - kept.len())]);
    }
    lemma_row_lines_newline_count(kept, opts);
    assert forall|i: int|
        0 <= i < kept.len() implies spec_format_row(#[trigger] kept[i], opts)
        == crate::format::spec_join(
        Seq::new(n as nat, |k: int| spec_field_text(kept[i], opts, k)),
        opts.delimiter,
    ) by {
        assert(kept[i].len() == n);
        assert(spec_num_fields(kept[i], opts) == n);
    }
    if kept.len() > 0 {
        let body = spec_row_lines(kept, opts);
        if body.len() == 0 {
            assert(count_char(body, '\n') == 0);
            assert(false);
        }
    }
}

/// The span of the document's second table region: from the first
/// `<table` marker after the first region's end through the nearest
/// following `</table>`.
pub open spec fn spec_second_table(text: Seq<char>) -> Seq<char> {
    let ts1 = spec_find(text, pat_table(), 0)->0;
    let tc1 = spec_find(text, pat_table_close(), ts1)->0;
    let ts2 = spec_find(text, pat_table(), tc1 + 8)->0;
    let tc2 = spec_find(text, pat_table_close(), ts2)->0;
    text.subrange(ts2, tc2 + 8)
}

/// Header suppression on a two-table document drops the first row of each
/// table independently: the output is the surviving rows of the first
/// table followed by those of the second, in document order, with exactly
/// one newline per surviving row.
pub proof fn lemma_two_table_header_suppression(text: Seq<char>, opts: OptionsV)
    requires
        opts.no_header,
        opts.delimiter != '\n',
        spec_find(text, pat_table(), 0) is Some,
        spec_find(text, pat_table_close(), spec_find(text, pat_table(), 0)->0) is Some,
        ({
            let ts1 = spec_find(text, pat_table(), 0)->0;
            let tc1 = spec_find(text, pat_table_close(), ts1)->0;
            spec_find(text, pat_table(), tc1 + 8) is Some
        }),
        ({
            let ts1 = spec_find(text, pat_table(), 0)->0;
            let tc1 = spec_find(text, pat_table_close(), ts1)->0;
            let ts2 = spec_find(text, pat_table(), tc1 + 8)->0;
            spec_find(text, pat_table_close(), ts2) is Some
        }),
        ({
            let ts1 = spec_find(text, pat_table(), 0)->0;
            let tc1 = spec_find(text, pat_table_close(), ts1)->0;
            let ts2 = spec_find(text, pat_table(), tc1 + 8)->0;
            let tc2 = spec_find(text, pat_table_close(), ts2)->0;
            spec_find(text, pat_table(), tc2 + 8) is None
        }),
        crate::extract::spec_rows(spec_first_table(text), 0).len() >= 2,
        crate::extract::spec_rows(spec_second_table(text), 0).len() >= 2,
    ensures
        ({
            let rows1 = crate::extract::spec_rows(spec_first_table(text), 0);
            let rows2 = crate::extract::spec_rows(spec_second_table(text), 0);
            &&& spec_csv_body(text, 0, opts) == spec_row_lines(rows1.drop_first(), opts)
                + spec_row_lines(rows2.drop_first(), opts)
            &&& count_char(spec_csv_body(text, 0, opts), '\n') == (rows1.len() - 1) + (rows2.len()
                - 1)
            &&& spec_extract(text, opts) == spec_csv_body(text, 0, opts)
        }),
{
    let ts1 = spec_find(text, pat_table(), 0)->0;
    let tc1 = spec_find(text, pat_table_close(), ts1)->0;
    let ts2 = spec_find(text, pat_table(), tc1 + 8)->0;
    let tc2 = spec_find(text, pat_table_close(), ts2)->0;
    lemma_find_props(text, pat_table(), 0);
    lemma_find_props(text, pat_table_close(), ts1);
    lemma_find_props(text, pat_table(), tc1 + 8);
    lemma_find_props(text, pat_table_close(), ts2);
    let t1 = spec_first_table(text);
    let t2 = spec_second_table(text);
    let rows1 = crate::extract::spec_rows(t1, 0);
    let rows2 = crate::extract::spec_rows(t2, 0);
    let kept1 = rows1.drop_first();
    let kept2 = rows2.drop_first();
    assert(spec_csv_body(text, tc2 + 8, opts) == Seq::<char>::empty());
    assert(spec_csv_body(text, tc1 + 8, opts) == crate::pipeline::spec_table_csv(t2, opts)
        + spec_csv_body(text, tc2 + 8, opts));
    assert(spec_csv_body(text, 0, opts) == crate::pipeline::spec_table_csv(t1, opts)
        + spec_csv_body(text, tc1 + 8, opts));
    assert(crate::pipeline::spec_kept_rows(rows1, opts) == kept1);
    assert(crate::pipeline::spec_kept_rows(rows2, opts) == kept2);
    let lines1 = spec_row_lines(kept1, opts);
    let lines2 = spec_row_lines(kept2, opts);
    assert(spec_csv_body(text, 0, opts) =~= lines1 + lines2);
    lemma_rows_no_newline(t1, 0);
    lemma_rows_no_newline(t2, 0);
    lemma_rows_nonempty(t1, 0);
    lemma_rows_nonempty(t2, 0);
    assert forall|i: int| 0 <= i < kept1.len() implies row_cells_ok(#[trigger] kept1[i]) && kept1[
        i
    ].len() > 0 by {
        assert(kept1[i] == rows1[i + 1]);
    }
    assert forall|i: int| 0 <= i < kept2.len() implies row_cells_ok(#[trigger] kept2[i]) && kept2[
        i
    ].len() > 0 by {
        assert(kept2[i] == rows2[i + 1]);
    }
    lemma_row_lines_newline_count(kept1, opts);
    lemma_row_lines_newline_count(kept2, opts);
    lemma_count_concat(lines1, lines2, '\n');
    let body = spec_csv_body(text, 0, opts);
    if body.len() == 0 {
        assert(count_char(body, '\n') == 0);
        assert(false);
    }
}

/// A document without any `<table>` marker yields the literal
/// no-tables-found message.
pub proof fn lemma_no_table_marker_message(text: Seq<char>, opts: OptionsV)
    requires
        spec_find(text, pat_table(), 0) is None,
    ensures
        spec_extract(text, opts) == no_tables_msg(),
{
    assert(spec_csv_body(text, 0, opts) == Seq::<char>::empty());
}

/// A document whose first `<table>` marker has no following `</table>`
/// yields the literal no-tables-found message: the dangling table is
/// discarded.
pub proof fn lemma_dangling_table_message(text: Seq<char>, opts: OptionsV)
    requires
        spec_find(text, pat_table(), 0) is Some,
        spec_find(text, pat_table_close(), spec_find(text, pat_table(), 0)->0) is None,
    ensures
        spec_extract(text, opts) == no_tables_msg(),
{
    assert(spec_csv_body(text, 0, opts) == Seq::<char>::empty());
}

} // verus!
