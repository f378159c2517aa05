use webgestalt_lib::readers::annotated_names;
use webgestalt_lib::readers::parse_gmt;
use webgestalt_lib::readers::parse_ranks;
use webgestalt_lib::readers::read_edge_list;
use webgestalt_lib::readers::read_gmt_file;
use webgestalt_lib::readers::read_intersection_list;
use webgestalt_lib::readers::read_ora_files;
use webgestalt_lib::readers::read_rank_file;
use webgestalt_lib::readers::read_seeds;
use webgestalt_lib::readers::read_single_list;
use webgestalt_lib::readers::utils::Item;
use webgestalt_lib::MalformedErrorType;
use webgestalt_lib::WebGestaltError;

fn names(list: &[&str]) -> Vec<String> {
    list.iter().map(|s| s.to_string()).collect()
}

fn sorted(set: &ahash::AHashSet<String>) -> Vec<String> {
    let mut v: Vec<String> = set.iter().cloned().collect();
    v.sort();
    v
}

#[test]
fn parse_gmt_reads_id_url_and_members() {
    let rows = vec![names(&["S1", "u", "a", "b"]), names(&["S2", ""])];
    let gmt = parse_gmt(&"p".to_string(), &rows).unwrap();
    assert_eq!(gmt.len(), 2);
    assert_eq!((gmt[0].id.as_str(), gmt[0].url.as_str()), ("S1", "u"));
    assert_eq!(gmt[0].parts, names(&["a", "b"]));
    assert_eq!(gmt[1].id, "S2");
    assert!(gmt[1].parts.is_empty());
}

#[test]
fn parse_gmt_reports_the_first_row_that_cannot_be_read() {
    let short = vec![names(&["S1", "u"]), names(&["S2"]), names(&["", "u"])];
    match parse_gmt(&"file.gmt".to_string(), &short) {
        Err(WebGestaltError::MalformedFile(e)) => {
            assert_eq!(e.path, "file.gmt");
            match e.kind {
                MalformedErrorType::NoColumnsFound { delimeter } => assert_eq!(delimeter, "\t"),
                _ => panic!("a short row has too few columns"),
            }
        }
        _ => panic!("a short row must be refused"),
    }
    let unnamed = vec![names(&["S1", "u"]), names(&["", "u", "a"])];
    match parse_gmt(&"file.gmt".to_string(), &unnamed) {
        Err(WebGestaltError::MalformedFile(e)) => match e.kind {
            MalformedErrorType::WrongFormat { found, expected } => {
                assert_eq!(found, "");
                assert_eq!(expected, "set identifier");
            }
            _ => panic!("an empty identifier has the wrong format"),
        },
        _ => panic!("an empty identifier must be refused"),
    }
}

#[test]
fn read_gmt_file_reads_quoted_fields_as_the_table_reader_does() {
    let text = "S1\tu\t\"a\tb\"\tc\n";
    let gmt = read_gmt_file(&"mem".to_string(), text.as_bytes()).unwrap();
    assert_eq!(gmt[0].parts, names(&["a\tb", "c"]));
}

#[test]
fn read_gmt_file_refuses_text_that_is_no_text() {
    let bytes: Vec<u8> = vec![b'S', b'\t', 0xff, 0xfe, b'\n'];
    match read_gmt_file(&"raw".to_string(), &bytes) {
        Err(WebGestaltError::MalformedFile(e)) => {
            assert_eq!(e.path, "raw");
            assert!(matches!(e.kind, MalformedErrorType::Unknown));
        }
        _ => panic!("bytes that are no text must be refused"),
    }
}

#[test]
fn read_rank_file_hands_scores_on_as_text() {
    let ranks = read_rank_file(&"r".to_string(), "g1\t2.5\ng2\t-1e3\textra\n".as_bytes()).unwrap();
    assert_eq!(ranks.len(), 2);
    assert_eq!((ranks[0].analyte.as_str(), ranks[0].score.as_str()), ("g1", "2.5"));
    assert_eq!((ranks[1].analyte.as_str(), ranks[1].score.as_str()), ("g2", "-1e3"));
    assert_eq!(ranks[1].score.parse::<f64>().unwrap(), -1000.0);
}

#[test]
fn parse_ranks_refuses_a_row_without_score() {
    let rows = vec![names(&["g1", "1"]), names(&["g2"])];
    match parse_ranks(&"r.rnk".to_string(), &rows) {
        Err(WebGestaltError::MalformedFile(e)) => {
            assert_eq!(e.path, "r.rnk");
            assert!(matches!(e.kind, MalformedErrorType::NoColumnsFound { .. }));
        }
        _ => panic!("a row without score must be refused"),
    }
}

#[test]
fn read_single_list_is_the_set_of_lines() {
    let set = read_single_list(&names(&["b", "a", "b", ""]));
    assert_eq!(sorted(&set), names(&["", "a", "b"]));
}

#[test]
fn read_intersection_list_keeps_known_names() {
    let known = read_single_list(&names(&["a", "b", "c"]));
    let set = read_intersection_list(&names(&["c", "x", "a", "c"]), &known);
    assert_eq!(sorted(&set), names(&["a", "c"]));
}

#[test]
fn annotated_names_are_the_members_of_all_sets() {
    let gmt = vec![
        Item { id: "A".to_string(), url: String::new(), parts: names(&["a", "b"]) },
        Item { id: "B".to_string(), url: String::new(), parts: names(&["b", "c"]) },
    ];
    assert_eq!(sorted(&annotated_names(&gmt)), names(&["a", "b", "c"]));
}

#[test]
fn read_ora_files_cuts_reference_then_interest() {
    let text = "A\tu\ta\tb\nB\tu\tc\n";
    let input = read_ora_files(
        &"g".to_string(),
        text.as_bytes(),
        &names(&["a", "c", "r", "z"]),
        &names(&["a", "b", "r"]),
    )
    .unwrap();
    assert_eq!(input.gmt.len(), 2);
    assert_eq!(sorted(&input.reference_list), names(&["a", "b"]));
    assert_eq!(sorted(&input.interest_list), names(&["a"]));
    assert!(read_ora_files(&"g".to_string(), "A\n".as_bytes(), &names(&[]), &names(&[])).is_err());
}

#[test]
fn read_edge_list_splits_at_white_space() {
    let rows = read_edge_list(&names(&["a b", "  c\t d  ", "", "e"]));
    assert_eq!(rows, vec![names(&["a", "b"]), names(&["c", "d"]), names(&[]), names(&["e"])]);
}

#[test]
fn read_seeds_leaves_empty_lines_out() {
    assert_eq!(read_seeds(&names(&["s1", "", "s2", "", ""])), names(&["s1", "s2"]));
    assert!(read_seeds(&names(&["", ""])).is_empty());
}
