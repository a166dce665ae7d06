//! Error types: a structured error for every failure the pipeline can
//! surface, with exact user-facing messages.

use vstd::prelude::*;

verus! {

/// Decimal digit character of `d` (for `d < 10`).
pub open spec fn digit_char(d: int) -> char {
    if d == 0 {
        '0'
    } else if d == 1 {
        '1'
    } else if d == 2 {
        '2'
    } else if d == 3 {
        '3'
    } else if d == 4 {
        '4'
    } else if d == 5 {
        '5'
    } else if d == 6 {
        '6'
    } else if d == 7 {
        '7'
    } else if d == 8 {
        '8'
    } else {
        '9'
    }
}

/// Decimal digit sequence of `n`, most significant first.
pub open spec fn dec_digits(n: int) -> Seq<char>
    decreases n,
{
    if n < 10 {
        seq![digit_char(n)]
    } else {
        dec_digits(n / 10).push(digit_char(n % 10))
    }
}

/// The single-character string for one decimal digit.
pub(crate) fn digit_str(d: u64) -> (r: &'static str)
    requires
        d < 10,
    ensures
        r@ =~= seq![digit_char(d as int)],
{
    proof {
        reveal_strlit("0");
        reveal_strlit("1");
        reveal_strlit("2");
        reveal_strlit("3");
        reveal_strlit("4");
        reveal_strlit("5");
        reveal_strlit("6");
        reveal_strlit("7");
        reveal_strlit("8");
        reveal_strlit("9");
    }
    match d {
        0 => "0",
        1 => "1",
        2 => "2",
        3 => "3",
        4 => "4",
        5 => "5",
        6 => "6",
        7 => "7",
        8 => "8",
        _ => "9",
    }
}

/// Decimal rendering of an unsigned number.
pub fn u64_to_string(n: u64) -> (r: String)
    ensures
        r@ == dec_digits(n as int),
    decreases n,
{
    if n < 10 {
        let s = digit_str(n);
        let r = s.to_owned();
        r
    } else {
        let mut r = u64_to_string(n / 10);
        let d = digit_str(n % 10);
        r.append(d);
        proof {
            assert(r@ =~= dec_digits((n / 10) as int).push(digit_char((n % 10) as int)));
        }
        r
    }
}

/// Errors surfaced by the pipeline. Failures of outside services (file
/// access, the table codec, configuration serialization) arrive with
/// their message already rendered.
#[derive(Clone, Debug)]
pub enum PlotError {
    /// File access failed.
    FileIo(String),
    /// The table engine failed to decode or process data.
    Polars(String),
    /// Configuration file error.
    Config(String),
    /// Unrecognized file extension.
    UnsupportedFormat { extension: String },
    /// A named column is not in the dataset.
    ColumnNotFound { column: String },
    /// A column index is out of range.
    InvalidColumnIndex { index: usize, max: usize },
    /// The dataset has no rows.
    EmptyDataset,
    /// Data validation failed.
    Validation(String),
    /// An operation needs more points than the data has.
    InsufficientData { operation: String, required: usize, actual: usize },
    /// A value could not be converted.
    TypeConversion(String),
    /// Configuration serialization failed.
    Json(String),
    /// Any other error.
    Custom(String),
}

impl PlotError {
    /// User-facing message for the status bar or a toast.
    pub fn user_message(&self) -> (r: String)
        ensures
            match self {
                PlotError::FileIo(e) => r@ == "File error: "@ + e@,
                PlotError::Polars(e) => r@ == "Data error: "@ + e@,
                PlotError::Config(m) => r@ == "Config error: "@ + m@,
                PlotError::UnsupportedFormat { extension } => r@ == "Unsupported file format: '."@
                    + extension@ + "'"@,
                PlotError::ColumnNotFound { column } => r@ == "Column '"@ + column@
                    + "' not found"@,
                PlotError::InvalidColumnIndex { index, max } => r@ == "Column index "@
                    + dec_digits(*index as int) + " out of range (max: "@ + dec_digits(
                    *max as int) + ")"@,
                PlotError::EmptyDataset => r@ == "Dataset is empty"@,
                PlotError::Validation(m) => r@ == "Validation error: "@ + m@,
                PlotError::InsufficientData { operation, required, actual } => r@
                    == operation@ + " requires "@ + dec_digits(*required as int)
                    + " points, but only "@ + dec_digits(*actual as int) + " available"@,
                PlotError::TypeConversion(m) => r@ == "Type error: "@ + m@,
                PlotError::Json(e) => r@ == "JSON error: "@ + e@,
                PlotError::Custom(m) => r@ == m@,
            },
    {
        match self {
            PlotError::FileIo(e) => {
                let mut r = "File error: ".to_owned();
                r.append(e.as_str());
                r
            },
            PlotError::Polars(e) => {
                let mut r = "Data error: ".to_owned();
                r.append(e.as_str());
                r
            },
            PlotError::Config(m) => {
                let mut r = "Config error: ".to_owned();
                r.append(m.as_str());
                r
            },
            PlotError::UnsupportedFormat { extension } => {
                let mut r = "Unsupported file format: '.".to_owned();
                r.append(extension.as_str());
                r.append("'");
                r
            },
            PlotError::ColumnNotFound { column } => {
                let mut r = "Column '".to_owned();
                r.append(column.as_str());
                r.append("' not found");
                r
            },
            PlotError::InvalidColumnIndex { index, max } => {
                let mut r = "Column index ".to_owned();
                let i = u64_to_string(*index as u64);
                r.append(i.as_str());
                r.append(" out of range (max: ");
                let m = u64_to_string(*max as u64);
                r.append(m.as_str());
                r.append(")");
                r
            },
            PlotError::EmptyDataset => "Dataset is empty".to_owned(),
            PlotError::Validation(m) => {
                let mut r = "Validation error: ".to_owned();
                r.append(m.as_str());
                r
            },
            PlotError::InsufficientData { operation, required, actual } => {
                let mut r = operation.as_str().to_owned();
                r.append(" requires ");
                let q = u64_to_string(*required as u64);
                r.append(q.as_str());
                r.append(" points, but only ");
                let a = u64_to_string(*actual as u64);
                r.append(a.as_str());
                r.append(" available");
                r
            },
            PlotError::TypeConversion(m) => {
                let mut r = "Type error: ".to_owned();
                r.append(m.as_str());
                r
            },
            PlotError::Json(e) => {
                let mut r = "JSON error: ".to_owned();
                r.append(e.as_str());
                r
            },
            PlotError::Custom(m) => m.as_str().to_owned(),
        }
    }

    /// Short title for toast notifications.
    pub fn title(&self) -> (r: &'static str)
        ensures
            match self {
                PlotError::FileIo(_) => r@ == "File Error"@,
                PlotError::Polars(_) => r@ == "Data Error"@,
                PlotError::Config(_) => r@ == "Configuration Error"@,
                PlotError::UnsupportedFormat { .. } => r@ == "Unsupported Format"@,
                PlotError::ColumnNotFound { .. } => r@ == "Column Not Found"@,
                PlotError::InvalidColumnIndex { .. } => r@ == "Invalid Column"@,
                PlotError::EmptyDataset => r@ == "Empty Dataset"@,
                PlotError::Validation(_) => r@ == "Validation Error"@,
                PlotError::InsufficientData { .. } => r@ == "Insufficient Data"@,
                PlotError::TypeConversion(_) => r@ == "Type Error"@,
                PlotError::Json(_) => r@ == "JSON Error"@,
                PlotError::Custom(_) => r@ == "Error"@,
            },
    {
        match self {
            PlotError::FileIo(_) => "File Error",
            PlotError::Polars(_) => "Data Error",
            PlotError::Config(_) => "Configuration Error",
            PlotError::UnsupportedFormat { .. } => "Unsupported Format",
            PlotError::ColumnNotFound { .. } => "Column Not Found",
            PlotError::InvalidColumnIndex { .. } => "Invalid Column",
            PlotError::EmptyDataset => "Empty Dataset",
            PlotError::Validation(_) => "Validation Error",
            PlotError::InsufficientData { .. } => "Insufficient Data",
            PlotError::TypeConversion(_) => "Type Error",
            PlotError::Json(_) => "JSON Error",
            PlotError::Custom(_) => "Error",
        }
    }
}

/// The `std::io::Error` type, declared so a value of it can cross a
/// signature.
#[verifier::external_type_specification]
#[verifier::external_body]
pub struct ExIoError(std::io::Error);

/// Rendered message of an I/O error.
///
/// Relies on the `Display` implementation of `std::io::Error` (via
/// `ToString::to_string`); nothing further is assumed of the text.
#[verifier::external_body]
fn io_error_message(e: &std::io::Error) -> (r: String)
    ensures
        r@.len() >= 0,
{
    e.to_string()
}

impl From<std::io::Error> for PlotError {
    /// An I/O failure becomes [`PlotError::FileIo`] with its rendered
    /// message.
    fn from(e: std::io::Error) -> (r: Self)
        ensures
            r is FileIo,
    {
        PlotError::FileIo(io_error_message(&e))
    }
}

impl vstd::std_specs::convert::FromSpecImpl<std::io::Error> for PlotError {
    open spec fn obeys_from_spec() -> bool {
        false
    }

    open spec fn from_spec(e: std::io::Error) -> PlotError {
        PlotError::EmptyDataset
    }
}

} // verus!
