//! Enrichment analysis over ranked analyte lists and analyte sets.
//!
//! Scores and probabilities are held as signed 64-bit keys. A key stands for
//! one real value: a larger key is a larger value, key zero is the value
//! zero, and negating a key negates the value. Everything that only orders,
//! counts or selects is computed here on keys; ratios of counts are returned
//! as exact fractions. Sums, products and quotients of real values, and the
//! distribution functions, are the caller's: it computes them and hands the
//! results in as keys.
//!
//! Any encoding with the three properties serves. For binary floating point
//! of 64 bits, the bit pattern of a value that is at least zero, read as an
//! integer, is its key, and the key of a value below zero is the negated
//! key of its magnitude.

pub mod fraction;
pub mod methods;
pub mod names;
pub mod order;
pub mod readers;
pub mod stat;

use vstd::prelude::*;
use vstd::string::StringExecFns;

verus! {

/// What is wrong with a malformed input.
#[derive(Debug)]
pub enum MalformedErrorType {
    NoColumnsFound { delimeter: String },
    WrongFormat { found: String, expected: String },
    Unknown,
}

/// A malformed input and where it was found.
#[derive(Debug)]
pub struct MalformedError {
    pub path: String,
    pub kind: MalformedErrorType,
}

/// A value that no analysis can use.
#[derive(Debug)]
pub enum StatisticsError {
    /// A score that is not a number.
    FoundNANValue,
    /// Another value out of range, as text.
    InvalidValue { value: String },
}

/// A configuration that no analysis can run with.
#[derive(Debug, Clone, Copy, PartialEq, Eq, Structural)]
pub enum ConfigurationError {
    /// The smallest overlap is above the largest.
    OverlapBounds,
    /// The reset probability is not strictly between zero and one.
    ResetProbability,
    /// The tolerance is not above zero.
    Tolerance,
}

/// A graph that does not fit its seeds or its edge list.
#[derive(Debug)]
pub enum GraphError {
    /// A seed that no edge names.
    UnknownSeed { seed: String },
    /// A row of the edge list with fewer than two nodes.
    IncompleteEdge { row: usize },
}

/// Every failure of the library.
#[derive(Debug)]
pub enum WebGestaltError {
    MalformedFile(MalformedError),
    StatisticsError(StatisticsError),
    ConfigurationError(ConfigurationError),
    GraphError(GraphError),
    /// A failure of the surroundings, with its message.
    IOError(String),
}

/// The text that describes a kind of malformed input. A tabulator as
/// delimiter is shown as a backslash and the letter t.
pub open spec fn malformed_text(kind: MalformedErrorType) -> Seq<char> {
    match kind {
        MalformedErrorType::WrongFormat { found, expected } => "Wrong Format Found. Found: "@
            + found@ + "; Expected: "@ + expected@,
        MalformedErrorType::Unknown => "Unknown error type."@,
        MalformedErrorType::NoColumnsFound { delimeter } => "No column found with delimeter "@ + (
        if delimeter@ == "\t"@ {
            "\\t"@
        } else {
            delimeter@
        }),
    }
}

impl MalformedError {
    /// The message: the place, then what is wrong.
    pub fn msg(&self) -> (text: String)
        ensures
            text@ == "Error in "@ + self.path@ + ": "@ + malformed_text(self.kind) + "."@,
    {
        let error_msg: String = match &self.kind {
            MalformedErrorType::WrongFormat { found, expected } => {
                String::from_str("Wrong Format Found. Found: ").concat(found.as_str()).concat(
                    "; Expected: ",
                ).concat(expected.as_str())
            },
            MalformedErrorType::Unknown => String::from_str("Unknown error type."),
            MalformedErrorType::NoColumnsFound { delimeter } => {
                let tab = String::from_str("\t");
                if *delimeter == tab {
                    String::from_str("No column found with delimeter ").concat("\\t")
                } else {
                    String::from_str("No column found with delimeter ").concat(delimeter.as_str())
                }
            },
        };
        let text = String::from_str("Error in ").concat(self.path.as_str()).concat(": ").concat(
            error_msg.as_str(),
        ).concat(".");
        proof {
            assert(text@ =~= "Error in "@ + self.path@ + ": "@ + malformed_text(self.kind) + "."@);
        }
        text
    }
}

/// The text that describes an unusable value.
pub open spec fn statistics_text(error: StatisticsError) -> Seq<char> {
    match error {
        StatisticsError::FoundNANValue => "Found a NAN value"@,
        StatisticsError::InvalidValue { value } => "Found invalid value: "@ + value@,
    }
}

impl StatisticsError {
    /// The message.
    pub fn msg(&self) -> (text: String)
        ensures
            text@ == "Statstical Error: "@ + statistics_text(*self) + "."@,
    {
        let error_msg: String = match self {
            StatisticsError::FoundNANValue => String::from_str("Found a NAN value"),
            StatisticsError::InvalidValue { value } => String::from_str(
                "Found invalid value: ",
            ).concat(value.as_str()),
        };
        let text = String::from_str("Statstical Error: ").concat(error_msg.as_str()).concat(".");
        proof {
            assert(text@ =~= "Statstical Error: "@ + statistics_text(*self) + "."@);
        }
        text
    }
}

/// The text that describes an unusable configuration.
pub open spec fn configuration_text(error: ConfigurationError) -> Seq<char> {
    match error {
        ConfigurationError::OverlapBounds => "minimum overlap above maximum overlap"@,
        ConfigurationError::ResetProbability => "reset probability outside of (0, 1)"@,
        ConfigurationError::Tolerance => "tolerance not above zero"@,
    }
}

impl ConfigurationError {
    /// The message.
    pub fn msg(&self) -> (text: String)
        ensures
            text@ == "Configuration Error: "@ + configuration_text(*self) + "."@,
    {
        let error_msg: &str = match self {
            ConfigurationError::OverlapBounds => "minimum overlap above maximum overlap",
            ConfigurationError::ResetProbability => "reset probability outside of (0, 1)",
            ConfigurationError::Tolerance => "tolerance not above zero",
        };
        let text = String::from_str("Configuration Error: ").concat(error_msg).concat(".");
        proof {
            assert(text@ =~= "Configuration Error: "@ + configuration_text(*self) + "."@);
        }
        text
    }
}

/// The text that describes a broken graph. The row of an incomplete edge
/// is not part of the text.
pub open spec fn graph_text(error: GraphError) -> Seq<char> {
    match error {
        GraphError::UnknownSeed { seed } => "seed not found in the edge list: "@ + seed@,
        GraphError::IncompleteEdge { row } => "edge with fewer than two nodes"@,
    }
}

impl GraphError {
    /// The message.
    pub fn msg(&self) -> (text: String)
        ensures
            text@ == "Graph Error: "@ + graph_text(*self) + "."@,
    {
        let error_msg: String = match self {
            GraphError::UnknownSeed { seed } => String::from_str(
                "seed not found in the edge list: ",
            ).concat(seed.as_str()),
            GraphError::IncompleteEdge { row } => String::from_str(
                "edge with fewer than two nodes",
            ),
        };
        let text = String::from_str("Graph Error: ").concat(error_msg.as_str()).concat(".");
        proof {
            assert(text@ =~= "Graph Error: "@ + graph_text(*self) + "."@);
        }
        text
    }
}

/// The message of a failure: that of the error it wraps.
pub open spec fn error_text(error: WebGestaltError) -> Seq<char> {
    match error {
        WebGestaltError::MalformedFile(x) => "Error in "@ + x.path@ + ": "@ + malformed_text(
            x.kind,
        ) + "."@,
        WebGestaltError::StatisticsError(x) => "Statstical Error: "@ + statistics_text(x) + "."@,
        WebGestaltError::ConfigurationError(x) => "Configuration Error: "@ + configuration_text(x)
            + "."@,
        WebGestaltError::GraphError(x) => "Graph Error: "@ + graph_text(x) + "."@,
        WebGestaltError::IOError(x) => x@,
    }
}

impl WebGestaltError {
    /// The message of the wrapped error.
    pub fn msg(&self) -> (text: String)
        ensures
            text@ == error_text(*self),
    {
        match self {
            WebGestaltError::MalformedFile(x) => x.msg(),
            WebGestaltError::StatisticsError(x) => x.msg(),
            WebGestaltError::ConfigurationError(x) => x.msg(),
            WebGestaltError::GraphError(x) => x.msg(),
            WebGestaltError::IOError(x) => x.clone(),
        }
    }
}

} // verus!
