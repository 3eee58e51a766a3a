//! Assembling the aggregated text: one record per file, all or nothing.
use vstd::prelude::*;

verus! {

/// The separator between the aggregated content and the user's directive.
pub const DIRECTIVE_SEPARATOR: &'static str = "\n:**and this is the directive**  => ";

/// A file of the tree as read: the directory it lies in, its path, and its text,
/// or `None` where its bytes are not text.
pub struct FileText {
    pub dir: String,
    pub path: String,
    pub content: Option<String>,
}

/// Why an aggregation failed.
pub enum AggregateError {
    /// The file at this path does not hold text.
    UnreadableContent { path: String },
}

/// The record of one file: a header naming its directory, its text, a blank line.
pub open spec fn record(dir: Seq<char>, content: Seq<char>) -> Seq<char> {
    "Directory: "@ + dir + "\n"@ + content + "\n\n"@
}

/// Whether file `j` of `files` holds text.
pub open spec fn is_text(files: Seq<FileText>, j: int) -> bool {
    files[j].content is Some
}

/// The records of `files`, in order; each file must hold text.
pub open spec fn records_text(files: Seq<FileText>) -> Seq<char>
    decreases files.len(),
{
    if files.len() == 0 {
        Seq::empty()
    } else {
        records_text(files.drop_last()) + record(
            files.last().dir@,
            files.last().content->0@,
        )
    }
}

/// Whether `j` is the first file of `files` that does not hold text.
pub open spec fn first_unreadable(files: Seq<FileText>, j: int) -> bool {
    &&& 0 <= j < files.len()
    &&& !is_text(files, j)
    &&& forall|m: int| 0 <= m < j ==> #[trigger] is_text(files, m)
}

/// Appends the record of one file.
pub fn push_record(acc: &mut String, dir: &str, content: &str)
    ensures
        final(acc)@ == old(acc)@ + record(dir@, content@),
{
    acc.append("Directory: ");
    acc.append(dir);
    acc.append("\n");
    acc.append(content);
    acc.append("\n\n");
    assert(acc@ =~= old(acc)@ + record(dir@, content@));
}

/// The records of all files in order, or, where some file does not hold text,
/// an error naming the first such file.
pub fn aggregate(files: &Vec<FileText>) -> (r: Result<String, AggregateError>)
    ensures
        r is Ok <==> forall|j: int| 0 <= j < files@.len() ==> #[trigger] is_text(files@, j),
        r matches Ok(s) ==> s@ == records_text(files@),
        r matches Err(AggregateError::UnreadableContent { path }) ==> exists|j: int|
            first_unreadable(files@, j) && path@ == files@[j].path@,
{
    let mut acc = String::new();
    let mut j: usize = 0;
    while j < files.len()
        invariant
            j <= files@.len(),
            forall|m: int| 0 <= m < j ==> #[trigger] is_text(files@, m),
            acc@ == records_text(files@.take(j as int)),
        decreases files@.len() - j,
    {
        proof {
            assert(files@.take(j + 1).drop_last() =~= files@.take(j as int));
        }
        match &files[j].content {
            Some(c) => {
                push_record(&mut acc, files[j].dir.as_str(), c.as_str());
            },
            None => {
                assert(first_unreadable(files@, j as int));
                return Err(AggregateError::UnreadableContent { path: files[j].path.clone() });
            },
        }
        j = j + 1;
    }
    assert(files@.take(j as int) =~= files@);
    Ok(acc)
}

/// The text of a generation request: the aggregated content, the separator, the
/// directive.
pub fn compose_request(content: &str, directive: &str) -> (r: String)
    ensures
        r@ == content@ + DIRECTIVE_SEPARATOR@ + directive@,
{
    String::from_str(content).concat(DIRECTIVE_SEPARATOR).concat(directive)
}

} // verus!
