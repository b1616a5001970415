//! Formatting configuration consumed by the row formatter.

use vstd::prelude::*;

verus! {

/// Policy controlling when an output field is wrapped in double quotes.
#[derive(Clone, Debug)]
pub enum QuoteMode {
    /// Never quote a field.
    Never,
    /// Quote every field.
    Always,
    /// Quote a field only when it contains the delimiter, a double quote,
    /// or a newline.
    AsNeeded,
}

/// Formatting configuration: delimiter, quoting policy, header suppression,
/// explicit per-column quoting, and column selection.
#[derive(Clone, Debug)]
pub struct CsvOptions {
    /// Character placed between fields of a row.
    pub delimiter: char,
    /// When to wrap a field in double quotes; overridden by `quote_columns`
    /// whenever that list is non-empty.
    pub quote_mode: QuoteMode,
    /// Drop the first row of each table before formatting.
    pub no_header: bool,
    /// 1-based source column numbers that are quoted regardless of
    /// `quote_mode`; empty means "use `quote_mode`".
    pub quote_columns: Vec<usize>,
    /// 1-based source column numbers to emit, in that order; empty means
    /// "all columns, original order".
    pub show_fields: Vec<usize>,
}

/// The mathematical content of a `CsvOptions` value.
#[verifier::ext_equal]
pub ghost struct OptionsV {
    /// Character placed between fields of a row.
    pub delimiter: char,
    /// When to wrap a field in double quotes.
    pub quote_mode: QuoteMode,
    /// Drop the first row of each table before formatting.
    pub no_header: bool,
    /// 1-based source column numbers quoted regardless of `quote_mode`.
    pub quote_columns: Seq<usize>,
    /// 1-based source column numbers to emit, in that order.
    pub show_fields: Seq<usize>,
}

impl View for CsvOptions {
    type V = OptionsV;

    open spec fn view(&self) -> OptionsV {
        OptionsV {
            delimiter: self.delimiter,
            quote_mode: self.quote_mode,
            no_header: self.no_header,
            quote_columns: self.quote_columns@,
            show_fields: self.show_fields@,
        }
    }
}

/// The default configuration: comma delimiter, quoting as needed, headers
/// kept, no explicit quote columns, all columns shown.
pub open spec fn default_options() -> OptionsV {
    OptionsV {
        delimiter: ',',
        quote_mode: QuoteMode::AsNeeded,
        no_header: false,
        quote_columns: Seq::empty(),
        show_fields: Seq::empty(),
    }
}

impl Default for CsvOptions {
    /// The default configuration: comma delimiter, quoting as needed,
    /// headers kept, no explicit quote columns, all columns shown.
    fn default() -> (r: Self)
        ensures
            r@ == default_options(),
    {
        let r = CsvOptions {
            delimiter: ',',
            quote_mode: QuoteMode::AsNeeded,
            no_header: false,
            quote_columns: Vec::new(),
            show_fields: Vec::new(),
        };
        proof {
            assert(r@ =~~= default_options());
        }
        r
    }
}

} // verus!
