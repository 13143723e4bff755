use vstd::prelude::*;

use vstd::std_specs::iter::IteratorSpec;

verus! {

/// One completed typing test as a client submits it and reads it back.
///
/// The performance figures are single-precision floats that the ledger
/// stores and returns untouched; they are held here as their IEEE-754 bit
/// patterns (`f32::to_bits`), so that nothing in the ledger can alter them.
pub struct TestResult {
    /// Canonical text of the test configuration, kept verbatim.
    pub test_params: String,
    /// When the attempt finished, in milliseconds since the Unix epoch.
    pub test_completed_timestamp: i64,
    pub wpm: u32,
    pub raw_wpm: u32,
    pub accuracy: u32,
}

/// A stored result together with the identifier the store gave it.
pub struct TestResultWithId {
    pub id: u32,
    pub test_params: String,
    pub test_completed_timestamp: i64,
    pub wpm: u32,
    pub raw_wpm: u32,
    pub accuracy: u32,
}

/// Query of a page of results: an optional exclusive upper bound on the
/// identifiers, and the largest number of results wanted.
pub struct GetResultsParams {
    pub cursor: Option<u32>,
    pub limit: u32,
}

/// A page of results, newest first, with the cursor for the page after it
/// (`0` once the history is exhausted).
pub struct GetResultsResponse {
    pub cursor: u32,
    pub results: Vec<TestResult>,
}

/// Why recording a result failed.
#[derive(Debug, Clone, Copy, PartialEq, Eq, Structural)]
pub enum PostResultError {
    /// The same user already recorded this configuration at this instant.
    DuplicateResult,
    /// Any other failure of the store or of encoding the result.
    Other,
}

/// The result that a stored record stands for, its identifier dropped.
pub open spec fn without_id(w: TestResultWithId) -> TestResult {
    TestResult {
        test_params: w.test_params,
        test_completed_timestamp: w.test_completed_timestamp,
        wpm: w.wpm,
        raw_wpm: w.raw_wpm,
        accuracy: w.accuracy,
    }
}

/// The cursor that follows a page: the identifier of its last (oldest)
/// record, or `0` for an empty page.
pub open spec fn next_cursor(page: Seq<TestResultWithId>) -> u32 {
    if page.len() == 0 {
        0
    } else {
        page.last().id
    }
}

pub open spec fn starts_with(s: Seq<char>, prefix: Seq<char>) -> bool {
    prefix.len() <= s.len() && s.subrange(0, prefix.len() as int) == prefix
}

pub open spec fn ends_with(s: Seq<char>, suffix: Seq<char>) -> bool {
    suffix.len() <= s.len() && s.subrange(s.len() - suffix.len(), s.len() as int) == suffix
}

/// Whether a database error message reports a violation of the uniqueness
/// constraint on submissions.
pub open spec fn is_duplicate_entry(message: Seq<char>) -> bool {
    starts_with(message, "Duplicate entry"@) && ends_with(message, "for key 'unique_result'"@)
}

impl TestResult {
    pub fn copy_result(&self) -> (r: TestResult)
        ensures
            r == *self,
    {
        TestResult {
            test_params: self.test_params.clone(),
            test_completed_timestamp: self.test_completed_timestamp,
            wpm: self.wpm,
            raw_wpm: self.raw_wpm,
            accuracy: self.accuracy,
        }
    }
}

impl TestResultWithId {
    /// The result that this record stands for.
    pub fn to_result(&self) -> (r: TestResult)
        ensures
            r == without_id(*self),
    {
        TestResult {
            test_params: self.test_params.clone(),
            test_completed_timestamp: self.test_completed_timestamp,
            wpm: self.wpm,
            raw_wpm: self.raw_wpm,
            accuracy: self.accuracy,
        }
    }
}

impl TestResultWithId {
    pub fn copy_record(&self) -> (r: TestResultWithId)
        ensures
            r == *self,
    {
        TestResultWithId {
            id: self.id,
            test_params: self.test_params.clone(),
            test_completed_timestamp: self.test_completed_timestamp,
            wpm: self.wpm,
            raw_wpm: self.raw_wpm,
            accuracy: self.accuracy,
        }
    }
}

impl From<TestResultWithId> for TestResult {
    fn from(w: TestResultWithId) -> (r: TestResult) {
        TestResult {
            test_params: w.test_params,
            test_completed_timestamp: w.test_completed_timestamp,
            wpm: w.wpm,
            raw_wpm: w.raw_wpm,
            accuracy: w.accuracy,
        }
    }
}

impl vstd::std_specs::convert::FromSpecImpl<TestResultWithId> for TestResult {
    open spec fn obeys_from_spec() -> bool {
        true
    }

    open spec fn from_spec(w: TestResultWithId) -> TestResult {
        without_id(w)
    }
}

/// Builds the response for a page of stored records, given newest first:
/// the records without their identifiers, and the cursor of the next page.
pub fn page_response(rows: &Vec<TestResultWithId>) -> (r: GetResultsResponse)
    ensures
        r.cursor == next_cursor(rows@),
        r.results@ == rows@.map_values(|w: TestResultWithId| without_id(w)),
{
    let cursor: u32 = if rows.len() == 0 {
        0
    } else {
        rows[rows.len() - 1].id
    };
    let mut results: Vec<TestResult> = Vec::new();
    let mut i: usize = 0;
    while i < rows.len()
        invariant
            i <= rows@.len(),
            results@ == rows@.subrange(0, i as int).map_values(|w: TestResultWithId| without_id(w)),
        decreases rows@.len() - i,
    {
        results.push(rows[i].to_result());
        i = i + 1;
        assert(results@ =~= rows@.subrange(0, i as int).map_values(|w: TestResultWithId| without_id(w)));
    }
    assert(rows@.subrange(0, rows@.len() as int) =~= rows@);
    GetResultsResponse { cursor, results }
}

/// The characters of a string, one by one.
fn chars_of(s: &str) -> (r: Vec<char>)
    ensures
        r@ == s@,
{
    broadcast use vstd::string::axiom_spec_iter;
    let mut it = s.chars();
    let mut out: Vec<char> = Vec::new();
    loop
        invariant
            out@ + it.remaining() == s@,
            it.decrease() is Some,
        decreases it.decrease()->0,
    {
        match it.next() {
            Some(c) => {
                out.push(c);
            },
            None => {
                return out;
            },
        }
    }
}

/// Whether `s` begins with `prefix`.
fn has_prefix(s: &Vec<char>, prefix: &Vec<char>) -> (r: bool)
    ensures
        r == starts_with(s@, prefix@),
{
    if prefix.len() > s.len() {
        return false;
    }
    let mut i: usize = 0;
    while i < prefix.len()
        invariant
            prefix@.len() <= s@.len(),
            i <= prefix@.len(),
            forall|j: int| 0 <= j < i ==> s@[j] == prefix@[j],
        decreases prefix@.len() - i,
    {
        if s[i] != prefix[i] {
            assert(s@.subrange(0, prefix@.len() as int)[i as int] != prefix@[i as int]);
            return false;
        }
        i = i + 1;
    }
    assert(s@.subrange(0, prefix@.len() as int) =~= prefix@);
    true
}

/// Whether `s` ends with `suffix`.
fn has_suffix(s: &Vec<char>, suffix: &Vec<char>) -> (r: bool)
    ensures
        r == ends_with(s@, suffix@),
{
    if suffix.len() > s.len() {
        return false;
    }
    let start: usize = s.len() - suffix.len();
    let mut i: usize = 0;
    while i < suffix.len()
        invariant
            suffix@.len() <= s@.len(),
            start + suffix@.len() == s@.len(),
            s@.len() <= usize::MAX,
            i <= suffix@.len(),
            forall|j: int| 0 <= j < i ==> s@[start + j] == suffix@[j],
        decreases suffix@.len() - i,
    {
        if s[start + i] != suffix[i] {
            assert(s@.subrange(start as int, s@.len() as int)[i as int] != suffix@[i as int]);
            return false;
        }
        i = i + 1;
    }
    assert(s@.subrange(start as int, s@.len() as int) =~= suffix@);
    true
}

/// Whether a database error message reports a violation of the uniqueness
/// constraint on submissions: it begins with `Duplicate entry` and ends with
/// `for key 'unique_result'`.
pub fn is_duplicate_entry_message(message: &str) -> (r: bool)
    ensures
        r == is_duplicate_entry(message@),
{
    let m = chars_of(message);
    let prefix = chars_of("Duplicate entry");
    let suffix = chars_of("for key 'unique_result'");
    has_prefix(&m, &prefix) && has_suffix(&m, &suffix)
}

impl PostResultError {
    /// Classifies a failed insert. `database_message` is the message of the
    /// error that the database itself reported, if the failure came from the
    /// database; any other failure (connection, encoding) passes `None`.
    pub fn from_storage_failure(database_message: Option<&str>) -> (r: PostResultError)
        ensures
            r == (match database_message {
                Some(m) => if is_duplicate_entry(m@) {
                    PostResultError::DuplicateResult
                } else {
                    PostResultError::Other
                },
                None => PostResultError::Other,
            }),
    {
        match database_message {
            Some(m) => if is_duplicate_entry_message(m) {
                PostResultError::DuplicateResult
            } else {
                PostResultError::Other
            },
            None => PostResultError::Other,
        }
    }

    /// The HTTP status that reports this error: 422 for a duplicate, 500
    /// otherwise.
    pub fn status_code(&self) -> (r: u16)
        ensures
            r == (if *self == PostResultError::DuplicateResult { 422u16 } else { 500u16 }),
    {
        match self {
            PostResultError::DuplicateResult => 422,
            PostResultError::Other => 500,
        }
    }

    /// The text sent along with the status.
    pub fn message(&self) -> (r: String)
        ensures
            r@ == (if *self == PostResultError::DuplicateResult {
                "Duplicate result"@
            } else {
                "Internal server error"@
            }),
    {
        match self {
            PostResultError::DuplicateResult => "Duplicate result".to_owned(),
            PostResultError::Other => "Internal server error".to_owned(),
        }
    }
}

} // verus!
