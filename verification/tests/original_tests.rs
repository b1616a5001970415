use html_table_csv_converter::extract_table_from_html;
use html_table_csv_converter::extract_table_from_html_with_options;
use html_table_csv_converter::CsvOptions;
use html_table_csv_converter::QuoteMode;

#[test]
fn test_extract_table_from_html() {
    let test_html = r#"
        <html>
        <body>
            <table class="some-class">
                <tr>
                    <th>Name</th>
                    <th>Age</th>
                    <th>City</th>
                </tr>
                <tr>
                    <td>John Doe</td>
                    <td>25</td>
                    <td>New York</td>
                </tr>
                <tr>
                    <td>Jane Smith</td>
                    <td>30</td>
                    <td>Los Angeles</td>
                </tr>
            </table>
        </body>
        </html>
        "#;

    let result = extract_table_from_html(test_html).unwrap();
    println!("Test result:\n{}", result);

    // Check that we have the header row
    assert!(result.contains("Name,Age,City"));
    // Check that we have the data rows
    assert!(result.contains("John Doe,25,New York"));
    assert!(result.contains("Jane Smith,30,Los Angeles"));
}

#[test]
fn test_simple_table() {
    let simple_html = r#"<html><body>
<table>
<tr><th>IP</th><th>Hostname</th></tr>
<tr><td>192.168.1.1</td><td>router</td></tr>
</table>
</body></html>"#;

    let result = extract_table_from_html(simple_html).unwrap();
    println!("Simple test result:\n{}", result);

    assert!(result.contains("IP,Hostname"));
    assert!(result.contains("192.168.1.1,router"));
}

#[test]
fn test_csv_options() {
    let test_html = r#"
        <table>
            <tr><th>Name</th><th>Description</th></tr>
            <tr><td>Test Item</td><td>Item with, comma</td></tr>
            <tr><td>Test|Pipe</td><td>Normal text</td></tr>
        </table>
        "#;

    // Test with always quote
    let options = CsvOptions {
        delimiter: ',',
        quote_mode: QuoteMode::Always,
        no_header: false,
        quote_columns: Vec::new(),
        show_fields: Vec::new(),
    };
    let result = extract_table_from_html_with_options(test_html, options).unwrap();
    assert!(result.contains("\"Name\",\"Description\""));
    assert!(result.contains("\"Test Item\",\"Item with, comma\""));

    // Test with pipe delimiter
    let options = CsvOptions {
        delimiter: '|',
        quote_mode: QuoteMode::AsNeeded,
        no_header: false,
        quote_columns: Vec::new(),
        show_fields: Vec::new(),
    };
    let result = extract_table_from_html_with_options(test_html, options).unwrap();
    println!("Pipe delimiter result:\n{}", result);
    assert!(result.contains("Name|Description"));
    // When using pipe delimiter, comma doesn't need quoting but pipe does
    assert!(result.contains("Test Item|Item with, comma"));
    assert!(result.contains("\"Test|Pipe\"|Normal text"));

    // Test no header
    let options = CsvOptions {
        delimiter: ',',
        quote_mode: QuoteMode::AsNeeded,
        no_header: true,
        quote_columns: Vec::new(),
        show_fields: Vec::new(),
    };
    let result = extract_table_from_html_with_options(test_html, options).unwrap();
    assert!(!result.contains("Name,Description"));
    assert!(result.contains("Test Item,\"Item with, comma\""));

    // Test show fields - only column 1 (Name)
    let options = CsvOptions {
        delimiter: ',',
        quote_mode: QuoteMode::AsNeeded,
        no_header: false,
        quote_columns: Vec::new(),
        show_fields: vec![1],
    };
    let result = extract_table_from_html_with_options(test_html, options).unwrap();
    println!("Show fields result:\n{}", result);
    assert!(result.contains("Name"));
    assert!(result.contains("Test Item"));
    assert!(result.contains("Test|Pipe")); // No quotes needed since we're using comma delimiter
    // Should not contain the Description column (column 2)
    assert!(!result.contains("Description"));
    assert!(!result.contains("Item with, comma"));
}
