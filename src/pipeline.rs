use crate::collect::{
    collect_records, has_failure, is_first_failure, outcome_records, records_view,
    sorted_by_path, FailedFetch, FetchError, FetchOutcome,
};
use crate::export::{render_table, table_bytes};
use vstd::prelude::*;
use vstd::string::StringExecFns;
use vstd::utf8::encode_utf8;

verus! {

/// The table that the outcomes of a whole batch yield, or why there is none.
///
/// Where any fetch failed there are no bytes to write, so no output file comes
/// into being. Otherwise the table holds one row per outcome, in ascending
/// order of path.
pub fn export_table(outcomes: &Vec<FetchOutcome>) -> (r: Result<Vec<u8>, FailedFetch>)
    ensures
        r is Err <==> has_failure(outcomes@),
        r matches Err(f) ==> is_first_failure(outcomes@, f.index as int)
            && outcomes@[f.index as int].result == Err::<usize, FetchError>(f.error),
        r matches Ok(b) ==> exists|recs: Seq<(Seq<char>, usize)>|
            {
                &&& sorted_by_path(recs)
                &&& recs.len() == outcomes.len()
                &&& recs.to_multiset() == outcome_records(outcomes@).to_multiset()
                &&& b@ == #[trigger] table_bytes(recs)
            },
{
    match collect_records(outcomes) {
        Err(f) => Err(f),
        Ok(records) => {
            let bytes = render_table(&records);
            assert(table_bytes(records_view(records@)) == bytes@);
            Ok(bytes)
        },
    }
}

/// Why no output destination could be chosen.
#[derive(Clone, Copy, Debug, PartialEq, Eq, Structural)]
pub enum DestinationError {
    /// Neither an output file nor an output directory was given.
    Missing,
    /// Both an output file and an output directory were given.
    Conflicting,
}

/// Whether the last byte of a directory path is a `/`.
pub open spec fn ends_with_separator(dir: Seq<char>) -> bool {
    encode_utf8(dir).len() > 0 && encode_utf8(dir).last() == 47u8
}

/// A file name placed in a directory.
pub open spec fn joined_path(dir: Seq<char>, name: Seq<char>) -> Seq<char> {
    if dir.len() == 0 {
        name
    } else if ends_with_separator(dir) {
        dir + name
    } else {
        dir + "/"@ + name
    }
}

/// The file that a run writes: the output file where one is given, or else
/// `file_name` (a name made from the time of the run) inside the output
/// directory. Exactly one of the two must be given.
pub fn output_destination(
    output: Option<String>,
    output_dir: Option<String>,
    file_name: String,
) -> (r: Result<String, DestinationError>)
    ensures
        output is Some && output_dir is Some <==> r == Err::<String, DestinationError>(
            DestinationError::Conflicting,
        ),
        output is None && output_dir is None <==> r == Err::<String, DestinationError>(
            DestinationError::Missing,
        ),
        output is Some && output_dir is None ==> (r is Ok && r->Ok_0@ == output->Some_0@),
        output is None && output_dir is Some ==> (r is Ok && r->Ok_0@ == joined_path(
            output_dir->Some_0@,
            file_name@,
        )),
{
    match (output, output_dir) {
        (Some(_), Some(_)) => Err(DestinationError::Conflicting),
        (None, None) => Err(DestinationError::Missing),
        (Some(path), None) => Ok(path),
        (None, Some(dir)) => {
            let bytes = dir.as_str().as_bytes();
            let n = bytes.len();
            if n == 0 {
                proof {
                    assert(dir@.len() == 0) by {
                        if dir@.len() > 0 {
                            vstd::utf8::encode_utf8_first_scalar(dir@);
                        }
                    }
                }
                Ok(file_name)
            } else if bytes[n - 1] == 47u8 {
                let mut path = dir;
                path.append(file_name.as_str());
                Ok(path)
            } else {
                let mut path = dir;
                path.append("/");
                path.append(file_name.as_str());
                Ok(path)
            }
        },
    }
}

} // verus!
