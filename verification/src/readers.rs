//! Readers over text that is already in memory: the rows of a
//! tab-separated table, and the lines of a list.

pub mod utils;

use ahash::AHashSet;
use vstd::prelude::*;
use crate::names::name_set_contains;
use crate::names::name_set_from;
use crate::names::name_set_insert;
use crate::names::name_set_new;
use crate::names::names_of;
use crate::names::set_names;
use crate::readers::utils::item_views;
use crate::readers::utils::Item;
use crate::readers::utils::ItemView;
use crate::MalformedError;
use crate::MalformedErrorType;
use crate::WebGestaltError;

verus! {

/// The records that the `csv` crate reads from tab-separated text without
/// a header row, rows of any length allowed; nothing where it reports an
/// error.
pub uninterp spec fn tsv_records(content: Seq<u8>) -> Option<Seq<Seq<Seq<char>>>>;

/// The fields of rows, as characters.
pub open spec fn rows_view(rows: Seq<Vec<String>>) -> Seq<Seq<Seq<char>>> {
    Seq::new(rows.len(), |i: int| names_of(rows[i]@))
}

/// The fields of rows that may be missing, as characters.
pub open spec fn read_view(rows: Option<Vec<Vec<String>>>) -> Option<Seq<Seq<Seq<char>>>> {
    match rows {
        Some(r) => Some(rows_view(r@)),
        None => None,
    }
}

/// `csv::ReaderBuilder` with a tabulator as delimiter, flexible rows and no
/// header, and `Reader::records` on the text. Trusted: the rows are the
/// records that the crate reads, and there are none where it reports an
/// error.
#[verifier::external_body]
fn tsv_rows(content: &[u8]) -> (rows: Option<Vec<Vec<String>>>)
    ensures
        read_view(rows) == tsv_records(content@),
{
    let mut rdr = csv::ReaderBuilder::new().delimiter(b'\t').flexible(true).has_headers(
        false,
    ).from_reader(content);
    let mut rows: Vec<Vec<String>> = Vec::new();
    for r in rdr.records() {
        match r {
            Ok(record) => rows.push(record.iter().map(|x| x.to_string()).collect()),
            Err(_) => return None,
        }
    }
    Some(rows)
}

/// The parts of a line between runs of white space, as `str::split_whitespace`
/// of the standard library yields them.
pub uninterp spec fn whitespace_fields(line: Seq<char>) -> Seq<Seq<char>>;

/// `str::split_whitespace`. Trusted: the fields are those that the
/// standard library yields, in order.
#[verifier::external_body]
fn split_line(line: &String) -> (fields: Vec<String>)
    ensures
        names_of(fields@) == whitespace_fields(line@),
{
    line.split_whitespace().map(|s| s.to_string()).collect()
}

/// A row can be read: it has two columns at least and, where an identifier
/// is asked for, its first column is not empty.
pub open spec fn row_fits(row: Seq<Seq<char>>, identified: bool) -> bool {
    row.len() >= 2 && (identified ==> row[0].len() > 0)
}

/// The first row that cannot be read, or the number of rows.
pub open spec fn first_unfit(rows: Seq<Seq<Seq<char>>>, identified: bool) -> int
    decreases rows.len(),
{
    if rows.len() == 0 {
        0
    } else {
        let earlier = first_unfit(rows.drop_last(), identified);
        if earlier < rows.len() - 1 {
            earlier
        } else if !row_fits(rows.last(), identified) {
            rows.len() - 1
        } else {
            rows.len() as int
        }
    }
}

/// `first_unfit` is the first row that cannot be read.
pub proof fn lemma_first_unfit(rows: Seq<Seq<Seq<char>>>, identified: bool)
    ensures
        0 <= first_unfit(rows, identified) <= rows.len(),
        first_unfit(rows, identified) < rows.len() ==> !row_fits(
            rows[first_unfit(rows, identified)],
            identified,
        ),
        forall|r: int|
            0 <= r < first_unfit(rows, identified) ==> row_fits(#[trigger] rows[r], identified),
    decreases rows.len(),
{
    if rows.len() > 0 {
        let front = rows.drop_last();
        lemma_first_unfit(front, identified);
        assert forall|r: int| 0 <= r < first_unfit(rows, identified) implies row_fits(
            #[trigger] rows[r],
            identified,
        ) by {
            if r < front.len() {
                assert(front[r] == rows[r]);
            }
        }
        if first_unfit(front, identified) < front.len() {
            assert(front[first_unfit(front, identified)] == rows[first_unfit(front, identified)]);
        }
    }
}

/// The first unreadable row of a table is that of any prefix that holds
/// one.
pub proof fn lemma_first_unfit_prefix(rows: Seq<Seq<Seq<char>>>, identified: bool, upto: int)
    requires
        0 <= upto <= rows.len(),
        first_unfit(rows.take(upto), identified) < upto,
    ensures
        first_unfit(rows, identified) == first_unfit(rows.take(upto), identified),
    decreases rows.len() - upto,
{
    if upto < rows.len() {
        assert(rows.take(upto + 1).drop_last() =~= rows.take(upto));
        lemma_first_unfit_prefix(rows, identified, upto + 1);
    } else {
        assert(rows.take(upto) =~= rows);
    }
}

/// What is wrong with a row that cannot be read as a set: too few columns,
/// or no identifier.
pub open spec fn fault_of(row: Seq<Seq<char>>, kind: MalformedErrorType) -> bool {
    if row.len() < 2 {
        kind matches MalformedErrorType::NoColumnsFound { delimeter } && delimeter@ == "\t"@
    } else {
        kind matches MalformedErrorType::WrongFormat { found, expected } && found@ == ""@
            && expected@ == "set identifier"@
    }
}

/// The set that a row describes: the identifier, the reference, and the
/// members from the third column on.
pub open spec fn set_of_row(row: Seq<Seq<char>>) -> ItemView {
    ItemView { id: row[0], url: row[1], parts: row.skip(2) }
}

/// The sets that the rows of a table describe.
pub open spec fn sets_of_rows(rows: Seq<Seq<Seq<char>>>) -> Seq<ItemView> {
    Seq::new(rows.len(), |i: int| set_of_row(rows[i]))
}

/// The outcome of reading a table of sets: the sets of the rows where every
/// row can be read, and otherwise an error that names the place and says
/// what is wrong with the first row that cannot.
pub open spec fn reads_sets(
    path: Seq<char>,
    rows: Seq<Seq<Seq<char>>>,
    out: Result<Vec<Item>, WebGestaltError>,
) -> bool {
    match out {
        Ok(items) => first_unfit(rows, true) == rows.len() && item_views(items@) == sets_of_rows(
            rows,
        ),
        Err(WebGestaltError::MalformedFile(e)) => {
            &&& first_unfit(rows, true) < rows.len()
            &&& e.path@ == path
            &&& fault_of(rows[first_unfit(rows, true)], e.kind)
        },
        Err(_) => false,
    }
}

/// Reads the rows of a table as analyte sets. A row holds the identifier,
/// the reference and then the members; rows may differ in length, and an
/// empty last column is a member like any other. A row with fewer than two
/// columns or with an empty identifier is an error.
pub fn parse_gmt(
    path: &String,
    rows: &Vec<Vec<String>>,
) -> (out: Result<Vec<Item>, WebGestaltError>)
    ensures
        reads_sets(path@, rows_view(rows@), out),
{
    let ghost table = rows_view(rows@);
    let mut items: Vec<Item> = Vec::new();
    let mut r: usize = 0;
    proof {
        assert(table.take(0) =~= Seq::<Seq<Seq<char>>>::empty());
    }
    while r < rows.len()
        invariant
            r <= rows@.len(),
            table == rows_view(rows@),
            first_unfit(table.take(r as int), true) == r,
            items@.len() == r,
            forall|i: int| 0 <= i < r ==> (#[trigger] items@[i])@ == set_of_row(table[i]),
        decreases rows@.len() - r,
    {
        let row = &rows[r];
        proof {
            assert(table.take(r + 1).drop_last() =~= table.take(r as int));
            assert(table.take(r + 1).last() == names_of(row@));
        }
        if row.len() < 2 {
            proof {
                lemma_first_unfit_prefix(table, true, r + 1);
            }
            return Err(
                WebGestaltError::MalformedFile(
                    MalformedError {
                        path: path.clone(),
                        kind: MalformedErrorType::NoColumnsFound { delimeter: "\t".to_owned() },
                    },
                ),
            );
        }
        if row[0].as_str().is_empty() {
            proof {
                assert(names_of(row@)[0] == row@[0]@);
                lemma_first_unfit_prefix(table, true, r + 1);
            }
            return Err(
                WebGestaltError::MalformedFile(
                    MalformedError {
                        path: path.clone(),
                        kind: MalformedErrorType::WrongFormat {
                            found: "".to_owned(),
                            expected: "set identifier".to_owned(),
                        },
                    },
                ),
            );
        }
        let mut parts: Vec<String> = Vec::new();
        let mut c: usize = 2;
        while c < row.len()
            invariant
                2 <= c <= row@.len(),
                parts@.len() == c - 2,
                forall|j: int| 0 <= j < c - 2 ==> (#[trigger] parts@[j])@ == row@[j + 2]@,
            decreases row@.len() - c,
        {
            parts.push(row[c].clone());
            c += 1;
        }
        let item = Item { id: row[0].clone(), url: row[1].clone(), parts };
        proof {
            assert(names_of(row@)[0] == row@[0]@);
            assert(names_of(item.parts@) =~= names_of(row@).skip(2));
            assert(item@ == set_of_row(table[r as int]));
        }
        items.push(item);
        r += 1;
    }
    proof {
        assert(table.take(rows@.len() as int) =~= table);
        assert(item_views(items@) =~= sets_of_rows(table));
    }
    Ok(items)
}

/// The outcome of reading the text of a table of sets: what reading its
/// records gives, and an error of unknown kind where the text holds no
/// records that can be told apart.
pub open spec fn reads_gmt_text(
    path: Seq<char>,
    content: Seq<u8>,
    out: Result<Vec<Item>, WebGestaltError>,
) -> bool {
    match tsv_records(content) {
        Some(rows) => reads_sets(path, rows, out),
        None => out matches Err(WebGestaltError::MalformedFile(e)) && e.path@ == path
            && e.kind is Unknown,
    }
}

/// Reads the sets of a tab-separated table without a header, given as
/// text. `path` names the source in error messages.
pub fn read_gmt_file(path: &String, content: &[u8]) -> (out: Result<Vec<Item>, WebGestaltError>)
    ensures
        reads_gmt_text(path@, content@, out),
{
    match tsv_rows(content) {
        Some(rows) => parse_gmt(path, &rows),
        None => Err(
            WebGestaltError::MalformedFile(
                MalformedError { path: path.clone(), kind: MalformedErrorType::Unknown },
            ),
        ),
    }
}

/// An analyte with its score as it stands in the text.
#[derive(Debug)]
pub struct RankText {
    pub analyte: String,
    pub score: String,
}

/// The outcome of reading a table of ranks: the first two columns of every
/// row, or an error for the first row with fewer than two columns.
pub open spec fn reads_ranks(
    path: Seq<char>,
    rows: Seq<Seq<Seq<char>>>,
    out: Result<Vec<RankText>, WebGestaltError>,
) -> bool {
    match out {
        Ok(items) => {
            &&& first_unfit(rows, false) == rows.len()
            &&& items@.len() == rows.len()
            &&& forall|i: int|
                0 <= i < rows.len() ==> (#[trigger] items@[i]).analyte@ == rows[i][0]
                    && items@[i].score@ == rows[i][1]
        },
        Err(WebGestaltError::MalformedFile(e)) => {
            &&& first_unfit(rows, false) < rows.len()
            &&& e.path@ == path
            &&& e.kind matches MalformedErrorType::NoColumnsFound { delimeter } && delimeter@
                == "\t"@
        },
        Err(_) => false,
    }
}

/// The outcome of reading the text of a table of ranks.
pub open spec fn reads_rank_text(
    path: Seq<char>,
    content: Seq<u8>,
    out: Result<Vec<RankText>, WebGestaltError>,
) -> bool {
    match tsv_records(content) {
        Some(rows) => reads_ranks(path, rows, out),
        None => out matches Err(WebGestaltError::MalformedFile(e)) && e.path@ == path
            && e.kind is Unknown,
    }
}

/// Reads the rows of a table as analytes with their scores. The scores
/// are handed on as text: what number a text stands for the caller decides.
pub fn parse_ranks(
    path: &String,
    rows: &Vec<Vec<String>>,
) -> (out: Result<Vec<RankText>, WebGestaltError>)
    ensures
        reads_ranks(path@, rows_view(rows@), out),
{
    let ghost table = rows_view(rows@);
    let mut items: Vec<RankText> = Vec::new();
    let mut r: usize = 0;
    proof {
        assert(table.take(0) =~= Seq::<Seq<Seq<char>>>::empty());
    }
    while r < rows.len()
        invariant
            r <= rows@.len(),
            table == rows_view(rows@),
            first_unfit(table.take(r as int), false) == r,
            items@.len() == r,
            forall|i: int|
                0 <= i < r ==> (#[trigger] items@[i]).analyte@ == table[i][0] && items@[i].score@
                    == table[i][1],
        decreases rows@.len() - r,
    {
        let row = &rows[r];
        proof {
            assert(table.take(r + 1).drop_last() =~= table.take(r as int));
            assert(table.take(r + 1).last() == names_of(row@));
        }
        if row.len() < 2 {
            proof {
                lemma_first_unfit_prefix(table, false, r + 1);
            }
            return Err(
                WebGestaltError::MalformedFile(
                    MalformedError {
                        path: path.clone(),
                        kind: MalformedErrorType::NoColumnsFound { delimeter: "\t".to_owned() },
                    },
                ),
            );
        }
        proof {
            assert(names_of(row@)[0] == row@[0]@);
            assert(names_of(row@)[1] == row@[1]@);
        }
        items.push(RankText { analyte: row[0].clone(), score: row[1].clone() });
        r += 1;
    }
    proof {
        assert(table.take(rows@.len() as int) =~= table);
    }
    Ok(items)
}

/// Reads the analytes and scores of a tab-separated table without a
/// header, given as text. `path` names the source in error messages.
pub fn read_rank_file(
    path: &String,
    content: &[u8],
) -> (out: Result<Vec<RankText>, WebGestaltError>)
    ensures
        reads_rank_text(path@, content@, out),
{
    match tsv_rows(content) {
        Some(rows) => parse_ranks(path, &rows),
        None => Err(
            WebGestaltError::MalformedFile(
                MalformedError { path: path.clone(), kind: MalformedErrorType::Unknown },
            ),
        ),
    }
}

/// Reads a list with one name on each line as a set of names.
pub fn read_single_list(lines: &Vec<String>) -> (names: AHashSet<String>)
    ensures
        set_names(names) == names_of(lines@).to_set(),
{
    name_set_from(lines)
}

/// Reads a list with one name on each line, keeping the names that
/// `ref_list` holds.
pub fn read_intersection_list(
    lines: &Vec<String>,
    ref_list: &AHashSet<String>,
) -> (names: AHashSet<String>)
    ensures
        set_names(names) == names_of(lines@).to_set().intersect(set_names(*ref_list)),
{
    let mut names: AHashSet<String> = name_set_new();
    let mut i: usize = 0;
    let ghost allowed = set_names(*ref_list);
    proof {
        assert(names_of(lines@).take(0).to_set().intersect(allowed) =~= Set::<Seq<char>>::empty());
    }
    while i < lines.len()
        invariant
            i <= lines@.len(),
            allowed == set_names(*ref_list),
            set_names(names) == names_of(lines@).take(i as int).to_set().intersect(allowed),
        decreases lines@.len() - i,
    {
        let ghost before = names_of(lines@).take(i as int);
        proof {
            assert(names_of(lines@).take(i + 1) =~= before.push(lines@[i as int]@));
            before.lemma_push_to_set_commute(lines@[i as int]@);
        }
        if name_set_contains(ref_list, &lines[i]) {
            let _ = name_set_insert(&mut names, lines[i].clone());
            proof {
                assert(set_names(names) =~= before.to_set().insert(lines@[i as int]@).intersect(
                    allowed,
                ));
            }
        } else {
            proof {
                assert(set_names(names) =~= before.to_set().insert(lines@[i as int]@).intersect(
                    allowed,
                ));
            }
        }
        i += 1;
    }
    proof {
        assert(names_of(lines@).take(lines@.len() as int) =~= names_of(lines@));
    }
    names
}

/// The names that are members of some set of a collection.
pub open spec fn all_members(items: Seq<Item>) -> Set<Seq<char>>
    decreases items.len(),
{
    if items.len() == 0 {
        Set::empty()
    } else {
        all_members(items.drop_last()).union(items.last().members())
    }
}

/// Collects the members of all sets of a collection.
pub fn annotated_names(items: &Vec<Item>) -> (names: AHashSet<String>)
    ensures
        set_names(names) == all_members(items@),
{
    let mut names: AHashSet<String> = name_set_new();
    let mut i: usize = 0;
    proof {
        assert(items@.take(0) =~= Seq::<Item>::empty());
    }
    while i < items.len()
        invariant
            i <= items@.len(),
            set_names(names) == all_members(items@.take(i as int)),
        decreases items@.len() - i,
    {
        let parts = &items[i].parts;
        let ghost before = all_members(items@.take(i as int));
        let mut m: usize = 0;
        proof {
            assert(items@.take(i + 1).drop_last() =~= items@.take(i as int));
            assert(items@.take(i + 1).last() == items@[i as int]);
            assert(before.union(names_of(parts@).take(0).to_set()) =~= before);
        }
        while m < parts.len()
            invariant
                m <= parts@.len(),
                set_names(names) == before.union(names_of(parts@).take(m as int).to_set()),
            decreases parts@.len() - m,
        {
            let ghost seen = names_of(parts@).take(m as int);
            let _ = name_set_insert(&mut names, parts[m].clone());
            proof {
                assert(names_of(parts@).take(m + 1) =~= seen.push(parts@[m as int]@));
                seen.lemma_push_to_set_commute(parts@[m as int]@);
                assert(set_names(names) =~= before.union(names_of(parts@).take(m + 1).to_set()));
            }
            m += 1;
        }
        proof {
            assert(names_of(parts@).take(parts@.len() as int) =~= names_of(parts@));
        }
        i += 1;
    }
    proof {
        assert(items@.take(items@.len() as int) =~= items@);
    }
    names
}

/// The inputs of an over-representation analysis.
pub struct ORAInput {
    /// The analyte sets.
    pub gmt: Vec<Item>,
    /// The names of interest that the reference holds.
    pub interest_list: AHashSet<String>,
    /// The reference names that are members of some set.
    pub reference_list: AHashSet<String>,
}

/// Reads the inputs of an over-representation analysis: the sets from the
/// text of a table, the reference list cut down to the names that some set
/// holds, and the interest list cut down to that reference.
pub fn read_ora_files(
    gmt_path: &String,
    gmt_content: &[u8],
    interest_lines: &Vec<String>,
    ref_lines: &Vec<String>,
) -> (out: Result<ORAInput, WebGestaltError>)
    ensures
        match out {
            Ok(input) => {
                &&& reads_gmt_text(gmt_path@, gmt_content@, Ok(input.gmt))
                &&& set_names(input.reference_list) == names_of(ref_lines@).to_set().intersect(
                    all_members(input.gmt@),
                )
                &&& set_names(input.interest_list) == names_of(
                    interest_lines@,
                ).to_set().intersect(set_names(input.reference_list))
            },
            Err(e) => reads_gmt_text(gmt_path@, gmt_content@, Err(e)),
        },
{
    match read_gmt_file(gmt_path, gmt_content) {
        Ok(gmt) => {
            let annotated = annotated_names(&gmt);
            let reference_list = read_intersection_list(ref_lines, &annotated);
            let interest_list = read_intersection_list(interest_lines, &reference_list);
            Ok(ORAInput { gmt, interest_list, reference_list })
        },
        Err(e) => Err(e),
    }
}

/// Reads an edge list: each line holds the names of two nodes between
/// white space. A row holds the fields of its line.
pub fn read_edge_list(lines: &Vec<String>) -> (rows: Vec<Vec<String>>)
    ensures
        rows@.len() == lines@.len(),
        forall|i: int|
            0 <= i < lines@.len() ==> names_of((#[trigger] rows@[i])@) == whitespace_fields(
                lines@[i]@,
            ),
{
    let mut rows: Vec<Vec<String>> = Vec::new();
    let mut i: usize = 0;
    while i < lines.len()
        invariant
            i <= lines@.len(),
            rows@.len() == i,
            forall|j: int|
                0 <= j < i ==> names_of((#[trigger] rows@[j])@) == whitespace_fields(lines@[j]@),
        decreases lines@.len() - i,
    {
        rows.push(split_line(&lines[i]));
        i += 1;
    }
    rows
}

/// The lines among the first `upto` that are not empty, in order.
pub open spec fn filled_lines(lines: Seq<Seq<char>>, upto: int) -> Seq<Seq<char>>
    decreases upto,
{
    if upto <= 0 {
        Seq::empty()
    } else {
        let earlier = filled_lines(lines, upto - 1);
        if lines[upto - 1].len() > 0 {
            earlier.push(lines[upto - 1])
        } else {
            earlier
        }
    }
}

/// Reads a seed list: one name on each line, empty lines left out.
pub fn read_seeds(lines: &Vec<String>) -> (seeds: Vec<String>)
    ensures
        names_of(seeds@) == filled_lines(names_of(lines@), lines@.len() as int),
{
    let mut seeds: Vec<String> = Vec::new();
    let mut i: usize = 0;
    proof {
        assert(names_of(seeds@) =~= Seq::<Seq<char>>::empty());
    }
    while i < lines.len()
        invariant
            i <= lines@.len(),
            names_of(seeds@) == filled_lines(names_of(lines@), i as int),
        decreases lines@.len() - i,
    {
        let ghost before = names_of(seeds@);
        proof {
            assert(names_of(lines@)[i as int] == lines@[i as int]@);
        }
        if !lines[i].as_str().is_empty() {
            seeds.push(lines[i].clone());
            proof {
                assert(names_of(seeds@) =~= before.push(lines@[i as int]@));
            }
        }
        i += 1;
    }
    seeds
}

} // verus!
