use html_table_csv_converter::clean_cell_content;
use html_table_csv_converter::extract_row_cells;
use html_table_csv_converter::extract_table_from_html;
use html_table_csv_converter::extract_table_from_html_with_options;
use html_table_csv_converter::extract_table_rows;
use html_table_csv_converter::format_row_with_options;
use html_table_csv_converter::CsvOptions;
use html_table_csv_converter::QuoteMode;

fn options_with(
    delimiter: char,
    quote_mode: QuoteMode,
    no_header: bool,
    quote_columns: Vec<usize>,
    show_fields: Vec<usize>,
) -> CsvOptions {
    CsvOptions { delimiter, quote_mode, no_header, quote_columns, show_fields }
}

#[test]
fn uniform_table_line_and_field_counts() {
    // Two header cells and one data row of two cells: two lines of two
    // fields each, one line when the header is suppressed.
    let html = "<table><tr><th>IP</th><th>Hostname</th></tr>\
                <tr><td>192.168.1.1</td><td>router</td></tr></table>";
    let result = extract_table_from_html(html).unwrap();
    assert_eq!(result, "IP,Hostname\n192.168.1.1,router\n");
    assert_eq!(result.matches('\n').count(), 2);
    assert!(result.lines().all(|line| line.split(',').count() == 2));

    let options = options_with(',', QuoteMode::AsNeeded, true, Vec::new(), Vec::new());
    let result = extract_table_from_html_with_options(html, options).unwrap();
    assert_eq!(result, "192.168.1.1,router\n");
    assert_eq!(result.matches('\n').count(), 1);
}

#[test]
fn ip_hostname_scenario_quoted() {
    let html = "<table><tr><th>IP</th><th>Hostname</th></tr>\
                <tr><td>192.168.1.1</td><td>router</td></tr></table>";
    // The default quote mode is AsNeeded: plain cells stay unquoted.
    let result = extract_table_from_html(html).unwrap();
    assert_eq!(result, "IP,Hostname\n192.168.1.1,router\n");
    // Under Always every field is wrapped in quotes.
    let options = options_with(',', QuoteMode::Always, false, Vec::new(), Vec::new());
    let result = extract_table_from_html_with_options(html, options).unwrap();
    assert_eq!(result, "\"IP\",\"Hostname\"\n\"192.168.1.1\",\"router\"\n");
}

#[test]
fn pipe_delimiter_quotes_pipe_not_comma() {
    let html = "<table><tr><td>Test|Pipe</td><td>Item with, comma</td></tr></table>";
    let options = options_with('|', QuoteMode::AsNeeded, false, Vec::new(), Vec::new());
    let result = extract_table_from_html_with_options(html, options).unwrap();
    assert_eq!(result, "\"Test|Pipe\"|Item with, comma\n");
}

#[test]
fn no_header_drops_first_row_of_each_table() {
    let html = "<table><tr><th>A</th></tr><tr><td>1</td></tr></table>\
                <table><tr><th>B</th></tr><tr><td>2</td></tr></table>";
    let options = options_with(',', QuoteMode::AsNeeded, true, Vec::new(), Vec::new());
    let result = extract_table_from_html_with_options(html, options).unwrap();
    assert_eq!(result, "1\n2\n");
}

#[test]
fn no_tables_yields_message() {
    let result = extract_table_from_html("<p>nothing tabular here</p>").unwrap();
    assert_eq!(result, "No tables found in the HTML");
    let result = extract_table_from_html("").unwrap();
    assert_eq!(result, "No tables found in the HTML");
}

#[test]
fn dangling_table_yields_message() {
    let result = extract_table_from_html("<table><tr><td>x</td></tr>").unwrap();
    assert_eq!(result, "No tables found in the HTML");
}

#[test]
fn cleaning_already_clean_is_identity() {
    assert_eq!(clean_cell_content("already clean text"), "already clean text");
    assert_eq!(clean_cell_content("x"), "x");
    assert_eq!(clean_cell_content(""), "");
}

#[test]
fn cleaning_strips_tags_and_collapses_whitespace() {
    assert_eq!(clean_cell_content("a<b>c"), "ac");
    assert_eq!(clean_cell_content("<b> hi\n\t there </b>"), "hi there");
    assert_eq!(clean_cell_content("  a  \r\n  b  "), "a b");
    // Unicode whitespace collapses too: no-break space, form feed, and
    // the em space all count as whitespace.
    assert_eq!(clean_cell_content("a\u{00A0}\u{000C}b"), "a b");
    assert_eq!(clean_cell_content("\u{2003}x\u{00A0}"), "x");
}

#[test]
fn malformed_opening_tag_skips_cell() {
    // The opening tag has no `>` before its closing marker: the cell is
    // skipped, nothing is emitted for it, and scanning continues.
    let cells = extract_row_cells("<td</td>");
    assert!(cells.is_empty());
    let cells = extract_row_cells("<tr><td</td><td>x</td></tr>");
    assert_eq!(cells, vec!["x".to_string()]);
    // A row holding only malformed cells yields no cells, so it is
    // dropped, and a table of such rows yields the message.
    let result = extract_table_from_html("<table><tr><td</td></tr></table>").unwrap();
    assert_eq!(result, "No tables found in the HTML");
}

#[test]
fn quote_round_trip_on_delimiter_field() {
    let html = "<table><tr><td>a,b</td><td>he said \"hi\"</td></tr></table>";
    let result = extract_table_from_html(html).unwrap();
    // The first field wraps in quotes; the second holds a quote, so its
    // quotes are doubled inside the wrapping.
    assert_eq!(result, "\"a,b\",\"he said \"\"hi\"\"\"\n");
    // Re-splitting outside quoted regions recovers the fields.
    let line = result.trim_end_matches('\n');
    let mut fields: Vec<String> = Vec::new();
    let mut current = String::new();
    let mut in_quotes = false;
    let mut chars = line.chars().peekable();
    while let Some(c) = chars.next() {
        if in_quotes {
            if c == '"' {
                if chars.peek() == Some(&'"') {
                    chars.next();
                    current.push('"');
                } else {
                    in_quotes = false;
                }
            } else {
                current.push(c);
            }
        } else if c == '"' {
            in_quotes = true;
        } else if c == ',' {
            fields.push(current.clone());
            current.clear();
        } else {
            current.push(c);
        }
    }
    fields.push(current);
    assert_eq!(fields, vec!["a,b".to_string(), "he said \"hi\"".to_string()]);
}

#[test]
fn show_fields_out_of_bounds_yields_empty_fields() {
    let html = "<table><tr><td>A</td><td>B</td></tr></table>";
    let options = options_with(',', QuoteMode::AsNeeded, false, Vec::new(), vec![1, 5]);
    let result = extract_table_from_html_with_options(html, options).unwrap();
    assert_eq!(result, "A,\n");
    let options = options_with(',', QuoteMode::AsNeeded, false, Vec::new(), vec![2, 1]);
    let result = extract_table_from_html_with_options(html, options).unwrap();
    assert_eq!(result, "B,A\n");
}

#[test]
fn quote_columns_overrides_quote_mode() {
    let html = "<table><tr><td>a,b</td><td>x</td></tr></table>";
    // Column 2 is listed: it is quoted though it holds nothing special;
    // column 1 is not listed: it stays unquoted though it holds the
    // delimiter — whatever the quote mode says.
    let expected = "a,b,\"x\"\n";
    for quote_mode in [QuoteMode::Never, QuoteMode::Always, QuoteMode::AsNeeded] {
        let options = options_with(',', quote_mode, false, vec![2], Vec::new());
        let result = extract_table_from_html_with_options(html, options).unwrap();
        assert_eq!(result, expected);
    }
}

#[test]
fn quoting_keys_off_source_column_after_reordering() {
    let html = "<table><tr><td>one</td><td>two</td></tr></table>";
    // Columns reordered to 2,1; only source column 1 is force-quoted, so
    // the quoted field appears in the second output position.
    let options = options_with(',', QuoteMode::Never, false, vec![1], vec![2, 1]);
    let result = extract_table_from_html_with_options(html, options).unwrap();
    assert_eq!(result, "two,\"one\"\n");
}

#[test]
fn tags_are_matched_case_insensitively() {
    let html = "<TABLE><TR><TD>x</TD><TH>y</TH></TR></TABLE>";
    let result = extract_table_from_html(html).unwrap();
    assert_eq!(result, "x,y\n");
}

#[test]
fn row_extraction_is_best_effort() {
    // The second cell never closes: the row keeps the cells found so far.
    let cells = extract_row_cells("<tr><td>a</td><td>b</tr>");
    assert_eq!(cells, vec!["a".to_string()]);
    // A row with no cells is dropped entirely.
    let rows = extract_table_rows("<table><tr></tr><tr><td>x</td></tr></table>");
    assert_eq!(rows, vec![vec!["x".to_string()]]);
    // Mixed th and td cells all count, in order of appearance.
    let cells = extract_row_cells("<tr><th>h</th><td>d</td></tr>");
    assert_eq!(cells, vec!["h".to_string(), "d".to_string()]);
}

#[test]
fn nested_markup_inside_cells_is_stripped() {
    let html = "<table><tr><td><b>bold</b> text</td></tr></table>";
    let result = extract_table_from_html(html).unwrap();
    assert_eq!(result, "bold text\n");
}

#[test]
fn format_row_directly() {
    let row = vec!["a".to_string(), "b,c".to_string()];
    let options = CsvOptions::default();
    assert_eq!(format_row_with_options(&row, &options), "a,\"b,c\"");
    let options = options_with(';', QuoteMode::Always, false, Vec::new(), Vec::new());
    assert_eq!(format_row_with_options(&row, &options), "\"a\";\"b,c\"");
    let options = options_with(',', QuoteMode::Never, false, Vec::new(), Vec::new());
    assert_eq!(format_row_with_options(&row, &options), "a,b,c");
}

#[test]
fn default_options_are_documented_defaults() {
    let options = CsvOptions::default();
    assert_eq!(options.delimiter, ',');
    assert!(matches!(options.quote_mode, QuoteMode::AsNeeded));
    assert!(!options.no_header);
    assert!(options.quote_columns.is_empty());
    assert!(options.show_fields.is_empty());
}

#[test]
fn newline_in_cell_is_collapsed_before_quoting() {
    // Cleaning removes the newline, so AsNeeded finds nothing to quote.
    let html = "<table><tr><td>two\nwords</td></tr></table>";
    let result = extract_table_from_html(html).unwrap();
    assert_eq!(result, "two words\n");
}
