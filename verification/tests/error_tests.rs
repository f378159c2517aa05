use webgestalt_lib::ConfigurationError;
use webgestalt_lib::GraphError;
use webgestalt_lib::MalformedError;
use webgestalt_lib::MalformedErrorType;
use webgestalt_lib::StatisticsError;
use webgestalt_lib::WebGestaltError;

#[test]
fn malformed_wrong_format_message() {
    let e = MalformedError {
        path: "file.gmt".to_string(),
        kind: MalformedErrorType::WrongFormat { found: "gmt".to_string(), expected: "rank".to_string() },
    };
    assert_eq!(e.msg(), "Error in file.gmt: Wrong Format Found. Found: gmt; Expected: rank.");
}

#[test]
fn malformed_unknown_message() {
    let e = MalformedError { path: "x".to_string(), kind: MalformedErrorType::Unknown };
    assert_eq!(e.msg(), "Error in x: Unknown error type..");
}

#[test]
fn malformed_no_columns_message_shows_a_tabulator_escaped() {
    let tab = MalformedError {
        path: "x".to_string(),
        kind: MalformedErrorType::NoColumnsFound { delimeter: "\t".to_string() },
    };
    assert_eq!(tab.msg(), "Error in x: No column found with delimeter \\t.");
    let comma = MalformedError {
        path: "x".to_string(),
        kind: MalformedErrorType::NoColumnsFound { delimeter: ",".to_string() },
    };
    assert_eq!(comma.msg(), "Error in x: No column found with delimeter ,.");
}

#[test]
fn statistics_messages() {
    assert_eq!(StatisticsError::FoundNANValue.msg(), "Statstical Error: Found a NAN value.");
    let e = StatisticsError::InvalidValue { value: "inf".to_string() };
    assert_eq!(e.msg(), "Statstical Error: Found invalid value: inf.");
}

#[test]
fn configuration_messages() {
    assert_eq!(
        ConfigurationError::OverlapBounds.msg(),
        "Configuration Error: minimum overlap above maximum overlap."
    );
    assert_eq!(
        ConfigurationError::ResetProbability.msg(),
        "Configuration Error: reset probability outside of (0, 1)."
    );
    assert_eq!(ConfigurationError::Tolerance.msg(), "Configuration Error: tolerance not above zero.");
}

#[test]
fn graph_messages() {
    let e = GraphError::UnknownSeed { seed: "TP53".to_string() };
    assert_eq!(e.msg(), "Graph Error: seed not found in the edge list: TP53.");
    assert_eq!(
        GraphError::IncompleteEdge { row: 4 }.msg(),
        "Graph Error: edge with fewer than two nodes."
    );
}

#[test]
fn wrapped_errors_keep_their_message() {
    let m = WebGestaltError::MalformedFile(MalformedError {
        path: "p".to_string(),
        kind: MalformedErrorType::Unknown,
    });
    assert_eq!(m.msg(), "Error in p: Unknown error type..");
    let s = WebGestaltError::StatisticsError(StatisticsError::FoundNANValue);
    assert_eq!(s.msg(), "Statstical Error: Found a NAN value.");
    let c = WebGestaltError::ConfigurationError(ConfigurationError::Tolerance);
    assert_eq!(c.msg(), "Configuration Error: tolerance not above zero.");
    let g = WebGestaltError::GraphError(GraphError::UnknownSeed { seed: "s".to_string() });
    assert_eq!(g.msg(), "Graph Error: seed not found in the edge list: s.");
    assert_eq!(WebGestaltError::IOError("disk gone".to_string()).msg(), "disk gone");
}
