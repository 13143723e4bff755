use vstd::prelude::*;

use crate::results::{
    next_cursor, page_response, without_id, GetResultsParams, GetResultsResponse, PostResultError,
    TestResult, TestResultWithId,
};

verus! {

/// A record of the ledger: a stored result and the user it belongs to.
pub struct StoredResult {
    pub user_id: u32,
    pub record: TestResultWithId,
}

/// Whether a stored record carries the deduplication key of a submission:
/// the same user, the same test configuration, the same completion instant.
pub open spec fn same_submission(s: StoredResult, user_id: u32, r: TestResult) -> bool {
    &&& s.user_id == user_id
    &&& s.record.test_params@ == r.test_params@
    &&& s.record.test_completed_timestamp == r.test_completed_timestamp
}

pub open spec fn already_recorded(rows: Seq<StoredResult>, user_id: u32, r: TestResult) -> bool {
    exists|i: int| 0 <= i < rows.len() && same_submission(rows[i], user_id, r)
}

/// The identifier that the next record receives: identifiers start at 1 and
/// each record gets one more than the newest before it.
pub open spec fn next_id(rows: Seq<StoredResult>) -> int {
    if rows.len() == 0 {
        1
    } else {
        rows.last().record.id + 1
    }
}

/// The ledger's invariant: identifiers are at least 1 and strictly increase
/// in insertion order, and no two records share a deduplication key.
pub open spec fn ledger_wf(rows: Seq<StoredResult>) -> bool {
    &&& forall|i: int, j: int|
        0 <= i < j < rows.len() ==> rows[i].record.id < rows[j].record.id
    &&& forall|i: int| 0 <= i < rows.len() ==> rows[i].record.id >= 1
    &&& forall|i: int, j: int|
        0 <= i < j < rows.len() ==> !same_submission(
            rows[j],
            rows[i].user_id,
            without_id(rows[i].record),
        )
}

/// What submitting `r` for `user_id` returns: a conflict if the key is
/// already recorded, a storage failure once identifiers are exhausted, and
/// otherwise the identifier of the new record.
pub open spec fn submit_outcome(rows: Seq<StoredResult>, user_id: u32, r: TestResult) -> Result<
    u32,
    PostResultError,
> {
    if already_recorded(rows, user_id, r) {
        Err(PostResultError::DuplicateResult)
    } else if next_id(rows) > u32::MAX {
        Err(PostResultError::Other)
    } else {
        Ok(next_id(rows) as u32)
    }
}

pub open spec fn stored(id: u32, user_id: u32, r: TestResult) -> StoredResult {
    StoredResult {
        user_id,
        record: TestResultWithId {
            id,
            test_params: r.test_params,
            test_completed_timestamp: r.test_completed_timestamp,
            wpm: r.wpm,
            raw_wpm: r.raw_wpm,
            accuracy: r.accuracy,
        },
    }
}

/// The ledger after submitting `r` for `user_id`: one record appended on
/// success, unchanged on failure.
pub open spec fn after_submit(rows: Seq<StoredResult>, user_id: u32, r: TestResult) -> Seq<
    StoredResult,
> {
    match submit_outcome(rows, user_id, r) {
        Ok(id) => rows.push(stored(id, user_id, r)),
        Err(_) => rows,
    }
}

/// Whether a record may appear in a listing for `user_id` below `cursor`.
pub open spec fn visible(s: StoredResult, user_id: u32, cursor: Option<u32>) -> bool {
    s.user_id == user_id && match cursor {
        Some(c) => s.record.id < c,
        None => true,
    }
}

/// All records of `user_id` below `cursor`, newest first.
pub open spec fn newest_first(rows: Seq<StoredResult>, user_id: u32, cursor: Option<u32>) -> Seq<
    StoredResult,
>
    decreases rows.len(),
{
    if rows.len() == 0 {
        Seq::empty()
    } else {
        let rest = newest_first(rows.drop_last(), user_id, cursor);
        if visible(rows.last(), user_id, cursor) {
            seq![rows.last()] + rest
        } else {
            rest
        }
    }
}

/// The page that a listing returns: the first `limit` of the visible records,
/// newest first, or all of them if fewer remain.
pub open spec fn page_of(
    rows: Seq<StoredResult>,
    user_id: u32,
    cursor: Option<u32>,
    limit: u32,
) -> Seq<StoredResult> {
    let all = newest_first(rows, user_id, cursor);
    if all.len() <= limit {
        all
    } else {
        all.take(limit as int)
    }
}

pub open spec fn records(rows: Seq<StoredResult>) -> Seq<TestResultWithId> {
    rows.map_values(|s: StoredResult| s.record)
}

/// Every record of a listing is a record of the ledger that is visible.
pub proof fn lemma_newest_first_visible(rows: Seq<StoredResult>, user_id: u32, cursor: Option<u32>)
    ensures
        forall|i: int|
            0 <= i < newest_first(rows, user_id, cursor).len() ==> {
                let s = #[trigger] newest_first(rows, user_id, cursor)[i];
                rows.contains(s) && visible(s, user_id, cursor)
            },
    decreases rows.len(),
{
    if rows.len() > 0 {
        let dl = rows.drop_last();
        lemma_newest_first_visible(dl, user_id, cursor);
        let nf = newest_first(rows, user_id, cursor);
        assert forall|i: int| 0 <= i < nf.len() implies rows.contains(#[trigger] nf[i]) && visible(
            nf[i],
            user_id,
            cursor,
        ) by {
            if visible(rows.last(), user_id, cursor) {
                if i == 0 {
                    assert(rows[rows.len() - 1] == nf[i]);
                } else {
                    let k = choose|k: int| 0 <= k < dl.len() && dl[k] == newest_first(dl, user_id, cursor)[i - 1];
                    assert(rows[k] == nf[i]);
                }
            } else {
                let k = choose|k: int| 0 <= k < dl.len() && dl[k] == newest_first(dl, user_id, cursor)[i];
                assert(rows[k] == nf[i]);
            }
        }
    }
}

/// Listing a ledger made of two parts lists the newer part first.
proof fn lemma_newest_first_concat(
    a: Seq<StoredResult>,
    b: Seq<StoredResult>,
    user_id: u32,
    cursor: Option<u32>,
)
    ensures
        newest_first(a + b, user_id, cursor) == newest_first(b, user_id, cursor) + newest_first(
            a,
            user_id,
            cursor,
        ),
    decreases b.len(),
{
    if b.len() == 0 {
        assert(a + b =~= a);
        assert(newest_first(b, user_id, cursor) + newest_first(a, user_id, cursor) =~= newest_first(a, user_id, cursor));
    } else {
        let ab = a + b;
        assert(ab.drop_last() =~= a + b.drop_last());
        assert(ab.last() == b.last());
        lemma_newest_first_concat(a, b.drop_last(), user_id, cursor);
        let rest_b = newest_first(b.drop_last(), user_id, cursor);
        let na = newest_first(a, user_id, cursor);
        if visible(b.last(), user_id, cursor) {
            assert(seq![b.last()] + (rest_b + na) =~= (seq![b.last()] + rest_b) + na);
        }
    }
}

/// Appending a record that respects the key and the identifier order keeps
/// the ledger's invariant.
proof fn lemma_submit_keeps_wf(rows: Seq<StoredResult>, user_id: u32, r: TestResult)
    requires
        ledger_wf(rows),
    ensures
        ledger_wf(after_submit(rows, user_id, r)),
        submit_outcome(rows, user_id, r) matches Ok(id) ==> forall|i: int|
            0 <= i < rows.len() ==> rows[i].record.id < id,
{
    if let Ok(id) = submit_outcome(rows, user_id, r) {
        let n = after_submit(rows, user_id, r);
        assert forall|i: int| 0 <= i < rows.len() implies rows[i].record.id < id by {
            if i < rows.len() - 1 {
                assert(rows[i].record.id < rows[rows.len() - 1].record.id);
            }
        }
        assert forall|i: int, j: int| 0 <= i < j < n.len() implies !same_submission(
            n[j],
            n[i].user_id,
            without_id(n[i].record),
        ) by {
            if j == rows.len() {
                assert(!same_submission(rows[i], user_id, r));
            } else {
                assert(n[i] == rows[i] && n[j] == rows[j]);
            }
        }
    }
}

/// How far below the top a cursor stands: an absent cursor is above every
/// identifier.
pub open spec fn cursor_rank(cursor: Option<u32>) -> int {
    match cursor {
        Some(c) => c as int,
        None => u32::MAX as int + 1,
    }
}

/// The records returned by listing from `cursor` with `limit`, then from each
/// returned cursor in turn, until a page comes back empty.
pub open spec fn walk(rows: Seq<StoredResult>, user_id: u32, cursor: Option<u32>, limit: u32) -> Seq<
    StoredResult,
>
    decreases cursor_rank(cursor),
    when limit > 0
    via walk_decreases
{
    let page = page_of(rows, user_id, cursor, limit);
    if page.len() == 0 {
        page
    } else {
        page + walk(rows, user_id, Some(page.last().record.id), limit)
    }
}

#[via_fn]
proof fn walk_decreases(rows: Seq<StoredResult>, user_id: u32, cursor: Option<u32>, limit: u32) {
    let page = page_of(rows, user_id, cursor, limit);
    if page.len() > 0 {
        lemma_newest_first_visible(rows, user_id, cursor);
        let nf = newest_first(rows, user_id, cursor);
        assert(page.last() == nf[page.len() - 1]);
    }
}

/// In a well-formed ledger a listing is strictly newest first.
pub proof fn lemma_newest_first_descending(rows: Seq<StoredResult>, user_id: u32, cursor: Option<u32>)
    requires
        ledger_wf(rows),
    ensures
        forall|i: int, j: int|
            0 <= i < j < newest_first(rows, user_id, cursor).len() ==> #[trigger] newest_first(
                rows,
                user_id,
                cursor,
            )[i].record.id > #[trigger] newest_first(rows, user_id, cursor)[j].record.id,
    decreases rows.len(),
{
    if rows.len() > 0 {
        let dl = rows.drop_last();
        assert(ledger_wf(dl));
        lemma_newest_first_descending(dl, user_id, cursor);
        lemma_newest_first_visible(dl, user_id, cursor);
        let rest = newest_first(dl, user_id, cursor);
        assert forall|j: int| 0 <= j < rest.len() implies rest[j].record.id < rows.last().record.id by {
            let k = choose|k: int| 0 <= k < dl.len() && dl[k] == rest[j];
            assert(rows[k] == rest[j]);
        }
    }
}

/// A listing holds every visible record of the ledger.
proof fn lemma_newest_first_complete(rows: Seq<StoredResult>, user_id: u32, cursor: Option<u32>)
    ensures
        forall|i: int|
            0 <= i < rows.len() && visible(rows[i], user_id, cursor) ==> newest_first(
                rows,
                user_id,
                cursor,
            ).contains(#[trigger] rows[i]),
    decreases rows.len(),
{
    if rows.len() > 0 {
        let dl = rows.drop_last();
        lemma_newest_first_complete(dl, user_id, cursor);
        let nf = newest_first(rows, user_id, cursor);
        let rest = newest_first(dl, user_id, cursor);
        assert forall|i: int| 0 <= i < rows.len() && visible(rows[i], user_id, cursor) implies nf.contains(
            #[trigger] rows[i],
        ) by {
            if i == rows.len() - 1 {
                assert(nf[0] == rows[i]);
            } else {
                assert(dl[i] == rows[i]);
                let k = choose|k: int| 0 <= k < rest.len() && rest[k] == dl[i];
                if visible(rows.last(), user_id, cursor) {
                    assert(nf[k + 1] == rows[i]);
                } else {
                    assert(nf[k] == rows[i]);
                }
            }
        }
    }
}

/// Below a cursor that lies above every identifier of `rows`, lowering the
/// cursor to `x` changes nothing.
proof fn lemma_newest_first_below(rows: Seq<StoredResult>, user_id: u32, cursor: Option<u32>, x: u32)
    requires
        x <= cursor_rank(cursor),
        forall|i: int| 0 <= i < rows.len() ==> rows[i].record.id < x,
    ensures
        newest_first(rows, user_id, Some(x)) == newest_first(rows, user_id, cursor),
    decreases rows.len(),
{
    if rows.len() > 0 {
        let dl = rows.drop_last();
        lemma_newest_first_below(dl, user_id, cursor, x);
    }
}

/// The records after the first `p` of a listing are the listing below the
/// identifier of the `p`-th.
proof fn lemma_newest_first_skip(rows: Seq<StoredResult>, user_id: u32, cursor: Option<u32>, p: int)
    requires
        ledger_wf(rows),
        0 < p <= newest_first(rows, user_id, cursor).len(),
    ensures
        newest_first(rows, user_id, Some(newest_first(rows, user_id, cursor)[p - 1].record.id))
            == newest_first(rows, user_id, cursor).skip(p),
    decreases rows.len(),
{
    let dl = rows.drop_last();
    assert(ledger_wf(dl));
    let nf = newest_first(rows, user_id, cursor);
    let rest = newest_first(dl, user_id, cursor);
    let x = nf[p - 1].record.id;
    lemma_newest_first_visible(rows, user_id, cursor);
    lemma_newest_first_visible(dl, user_id, cursor);
    assert forall|i: int| 0 <= i < dl.len() implies dl[i].record.id < rows.last().record.id by {
        assert(dl[i] == rows[i]);
    }
    if !visible(rows.last(), user_id, cursor) {
        lemma_newest_first_skip(dl, user_id, cursor, p);
        assert(!visible(rows.last(), user_id, Some(x)));
    } else if p == 1 {
        assert(x == rows.last().record.id);
        assert(x <= cursor_rank(cursor));
        lemma_newest_first_below(dl, user_id, cursor, x);
        assert(nf.skip(1) =~= rest);
    } else {
        assert(nf[p - 1] == rest[p - 2]);
        lemma_newest_first_skip(dl, user_id, cursor, p - 1);
        let k = choose|k: int| 0 <= k < dl.len() && dl[k] == rest[p - 2];
        assert(x < rows.last().record.id);
        assert(nf.skip(p) =~= rest.skip(p - 1));
    }
}

/// Chaining pages from a cursor returns the listing below that cursor.
proof fn lemma_walk_lists_all(rows: Seq<StoredResult>, user_id: u32, cursor: Option<u32>, limit: u32)
    requires
        ledger_wf(rows),
        limit > 0,
    ensures
        walk(rows, user_id, cursor, limit) == newest_first(rows, user_id, cursor),
    decreases cursor_rank(cursor),
{
    let nf = newest_first(rows, user_id, cursor);
    let page = page_of(rows, user_id, cursor, limit);
    if page.len() > 0 {
        let p = page.len() as int;
        assert(page.last() == nf[p - 1]);
        lemma_newest_first_visible(rows, user_id, cursor);
        lemma_newest_first_skip(rows, user_id, cursor, p);
        lemma_walk_lists_all(rows, user_id, Some(page.last().record.id), limit);
        assert(nf =~= page + nf.skip(p));
    }
}

/// Identifiers increase: of two successful submissions, in either order of
/// users, the later one receives the larger identifier.
pub proof fn lemma_ids_increase(
    rows: Seq<StoredResult>,
    first_user: u32,
    first: TestResult,
    second_user: u32,
    second: TestResult,
)
    requires
        ledger_wf(rows),
        submit_outcome(rows, first_user, first) is Ok,
        submit_outcome(after_submit(rows, first_user, first), second_user, second) is Ok,
    ensures
        submit_outcome(rows, first_user, first)->Ok_0 < submit_outcome(
            after_submit(rows, first_user, first),
            second_user,
            second,
        )->Ok_0,
{
}

/// Submitting the same user, configuration and instant twice leaves exactly
/// one record with that key, and the second submission is refused as a
/// duplicate without changing the ledger.
pub proof fn lemma_duplicate_rejected(
    rows: Seq<StoredResult>,
    user_id: u32,
    first: TestResult,
    second: TestResult,
)
    requires
        ledger_wf(rows),
        next_id(rows) <= u32::MAX,
        second.test_params@ == first.test_params@,
        second.test_completed_timestamp == first.test_completed_timestamp,
    ensures
        submit_outcome(after_submit(rows, user_id, first), user_id, second) == Err::<
            u32,
            PostResultError,
        >(PostResultError::DuplicateResult),
        after_submit(after_submit(rows, user_id, first), user_id, second) == after_submit(
            rows,
            user_id,
            first,
        ),
        exists|i: int|
            0 <= i < after_submit(rows, user_id, first).len() && same_submission(
                #[trigger] after_submit(rows, user_id, first)[i],
                user_id,
                first,
            ) && forall|j: int|
                0 <= j < after_submit(rows, user_id, first).len() && same_submission(
                    #[trigger] after_submit(rows, user_id, first)[j],
                    user_id,
                    first,
                ) ==> j == i,
{
    let once = after_submit(rows, user_id, first);
    lemma_submit_keeps_wf(rows, user_id, first);
    let i = if already_recorded(rows, user_id, first) {
        choose|i: int| 0 <= i < rows.len() && same_submission(rows[i], user_id, first)
    } else {
        rows.len() as int
    };
    assert(same_submission(once[i], user_id, first));
    assert(same_submission(once[i], user_id, second));
    assert forall|j: int| 0 <= j < once.len() && same_submission(#[trigger] once[j], user_id, first) implies j == i by {
        if j < i {
            assert(!same_submission(once[i], once[j].user_id, without_id(once[j].record)));
        } else if i < j {
            assert(!same_submission(once[j], once[i].user_id, without_id(once[i].record)));
        }
    }
}

/// Chaining pages of any positive size, each from the cursor that the one
/// before returned, until a page is empty, returns every record of the user
/// exactly once, strictly newest first.
pub proof fn lemma_pagination_complete(rows: Seq<StoredResult>, user_id: u32, limit: u32)
    requires
        ledger_wf(rows),
        limit > 0,
    ensures
        walk(rows, user_id, None, limit) == newest_first(rows, user_id, None),
        forall|s: StoredResult|
            #[trigger] walk(rows, user_id, None, limit).contains(s) <==> (rows.contains(s)
                && s.user_id == user_id),
        forall|i: int, j: int|
            0 <= i < j < walk(rows, user_id, None, limit).len() ==> #[trigger] walk(
                rows,
                user_id,
                None,
                limit,
            )[i].record.id > #[trigger] walk(rows, user_id, None, limit)[j].record.id,
{
    lemma_walk_lists_all(rows, user_id, None, limit);
    lemma_newest_first_visible(rows, user_id, None);
    lemma_newest_first_complete(rows, user_id, None);
    lemma_newest_first_descending(rows, user_id, None);
    let w = walk(rows, user_id, None, limit);
    assert forall|s: StoredResult| #[trigger] w.contains(s) <==> (rows.contains(s) && s.user_id == user_id) by {
        if rows.contains(s) && s.user_id == user_id {
            let k = choose|k: int| 0 <= k < rows.len() && rows[k] == s;
            assert(visible(rows[k], user_id, None));
        }
        if w.contains(s) {
            let k = choose|k: int| 0 <= k < w.len() && w[k] == s;
            assert(visible(w[k], user_id, None));
        }
    }
}

/// A record submitted after a page was fetched never appears in the page
/// fetched next with that page's cursor, nor does any record of the first
/// page appear again.
pub proof fn lemma_cursor_stable(
    rows: Seq<StoredResult>,
    user_id: u32,
    cursor: Option<u32>,
    limit: u32,
    other_user: u32,
    inserted: TestResult,
)
    requires
        ledger_wf(rows),
    ensures
        ({
            let first = page_of(rows, user_id, cursor, limit);
            let later = after_submit(rows, other_user, inserted);
            let second = page_of(later, user_id, Some(next_cursor(records(first))), limit);
            forall|i: int|
                0 <= i < second.len() ==> rows.contains(#[trigger] second[i]) && !first.contains(
                    second[i],
                )
        }),
{
    let first = page_of(rows, user_id, cursor, limit);
    let later = after_submit(rows, other_user, inserted);
    let x = next_cursor(records(first));
    let second = page_of(later, user_id, Some(x), limit);
    let nf = newest_first(rows, user_id, cursor);
    lemma_newest_first_visible(rows, user_id, cursor);
    lemma_newest_first_descending(rows, user_id, cursor);
    lemma_newest_first_visible(later, user_id, Some(x));
    lemma_submit_keeps_wf(rows, other_user, inserted);
    let n2 = newest_first(later, user_id, Some(x));
    assert forall|i: int| 0 <= i < second.len() implies rows.contains(#[trigger] second[i]) && !first.contains(second[i]) by {
        assert(second[i] == n2[i]);
        let s = second[i];
        let k = choose|k: int| 0 <= k < later.len() && later[k] == s;
        assert(s.record.id < x);
        assert(first.len() > 0);
        let f = first.len() - 1;
        assert(records(first)[f] == first[f].record);
        assert(first[f] == nf[f]);
        let m = choose|m: int| 0 <= m < rows.len() && rows[m] == nf[f];
        if k == rows.len() {
            assert(rows[m].record.id <= rows[rows.len() - 1].record.id) by {
                if m < rows.len() - 1 {
                    assert(rows[m].record.id < rows[rows.len() - 1].record.id);
                }
            }
        } else {
            assert(rows[k] == s);
        }
        if first.contains(s) {
            let q = choose|q: int| 0 <= q < first.len() && first[q] == s;
            assert(first[q] == nf[q]);
            if q < f {
                assert(nf[q].record.id > nf[f].record.id);
            }
        }
    }
}

/// A listing for a user holds only that user's records, whatever the cursor
/// and the limit.
pub proof fn lemma_listing_isolated(
    rows: Seq<StoredResult>,
    user_id: u32,
    cursor: Option<u32>,
    limit: u32,
)
    ensures
        forall|i: int|
            0 <= i < page_of(rows, user_id, cursor, limit).len() ==> (#[trigger] page_of(
                rows,
                user_id,
                cursor,
                limit,
            )[i]).user_id == user_id,
{
    lemma_newest_first_visible(rows, user_id, cursor);
    let page = page_of(rows, user_id, cursor, limit);
    let nf = newest_first(rows, user_id, cursor);
    assert forall|i: int| 0 <= i < page.len() implies (#[trigger] page[i]).user_id == user_id by {
        assert(page[i] == nf[i]);
    }
}

/// A ledger of results, in insertion order.
pub struct Ledger {
    rows: Vec<StoredResult>,
}

impl View for Ledger {
    type V = Seq<StoredResult>;

    closed spec fn view(&self) -> Seq<StoredResult> {
        self.rows@
    }
}

impl StoredResult {
    fn matches(&self, user_id: u32, r: &TestResult) -> (b: bool)
        ensures
            b == same_submission(*self, user_id, *r),
    {
        self.user_id == user_id && self.record.test_completed_timestamp
            == r.test_completed_timestamp && self.record.test_params == r.test_params
    }

    fn is_visible(&self, user_id: u32, cursor: Option<u32>) -> (b: bool)
        ensures
            b == visible(*self, user_id, cursor),
    {
        self.user_id == user_id && match cursor {
            Some(c) => self.record.id < c,
            None => true,
        }
    }
}

impl Ledger {
    pub open spec fn wf(&self) -> bool {
        ledger_wf(self@)
    }

    /// An empty ledger.
    pub fn new() -> (r: Ledger)
        ensures
            r.wf(),
            r@ == Seq::<StoredResult>::empty(),
    {
        Ledger { rows: Vec::new() }
    }

    /// The number of records held.
    pub fn len(&self) -> (r: usize)
        ensures
            r == self@.len(),
    {
        self.rows.len()
    }

    fn is_recorded(&self, user_id: u32, r: &TestResult) -> (b: bool)
        ensures
            b == already_recorded(self@, user_id, *r),
    {
        let mut i: usize = 0;
        while i < self.rows.len()
            invariant
                i <= self@.len(),
                forall|j: int| 0 <= j < i ==> !same_submission(self@[j], user_id, *r),
            decreases self@.len() - i,
        {
            if self.rows[i].matches(user_id, r) {
                return true;
            }
            i = i + 1;
        }
        false
    }

    /// Records `result` for `user_id`, once. A submission whose user, test
    /// configuration and completion instant are already recorded is refused
    /// with `DuplicateResult`; when identifiers are exhausted the store fails
    /// with `Other`. Otherwise the record is appended and its identifier,
    /// larger than every identifier before it, is returned.
    pub fn submit(&mut self, user_id: u32, result: TestResult) -> (r: Result<u32, PostResultError>)
        requires
            old(self).wf(),
        ensures
            final(self).wf(),
            r == submit_outcome(old(self)@, user_id, result),
            final(self)@ == after_submit(old(self)@, user_id, result),
            r matches Ok(id) ==> forall|i: int|
                0 <= i < old(self)@.len() ==> old(self)@[i].record.id < id,
    {
        proof {
            lemma_submit_keeps_wf(self@, user_id, result);
        }
        if self.is_recorded(user_id, &result) {
            return Err(PostResultError::DuplicateResult);
        }
        let n = self.rows.len();
        let id: u32 = if n == 0 {
            1
        } else {
            let newest = self.rows[n - 1].record.id;
            if newest == u32::MAX {
                return Err(PostResultError::Other);
            }
            newest + 1
        };
        let TestResult { test_params, test_completed_timestamp, wpm, raw_wpm, accuracy } = result;
        self.rows.push(
            StoredResult {
                user_id,
                record: TestResultWithId {
                    id,
                    test_params,
                    test_completed_timestamp,
                    wpm,
                    raw_wpm,
                    accuracy,
                },
            },
        );
        Ok(id)
    }

    /// The records of `user_id` with identifiers below `cursor` (all of them
    /// without a cursor), newest first, at most `limit` of them.
    pub fn query_page(&self, user_id: u32, cursor: Option<u32>, limit: u32) -> (r: Vec<
        TestResultWithId,
    >)
        ensures
            r@ == records(page_of(self@, user_id, cursor, limit)),
    {
        let rows = &self.rows;
        let ghost all = rows@;
        let mut out: Vec<TestResultWithId> = Vec::new();
        let mut i: usize = rows.len();
        while i > 0 && out.len() < limit as usize
            invariant
                i <= all.len(),
                all == rows@,
                out@.len() <= limit,
                out@ == records(newest_first(all.subrange(i as int, all.len() as int), user_id, cursor)),
            decreases i,
        {
            i = i - 1;
            let ghost tail = all.subrange(i + 1, all.len() as int);
            let ghost one = all.subrange(i as int, i + 1);
            proof {
                assert(all.subrange(i as int, all.len() as int) =~= one + tail);
                lemma_newest_first_concat(one, tail, user_id, cursor);
                assert(one.drop_last() =~= Seq::<StoredResult>::empty());
                assert(newest_first(one.drop_last(), user_id, cursor) =~= Seq::<StoredResult>::empty());
                assert(one.last() == all[i as int]);
            }
            if rows[i].is_visible(user_id, cursor) {
                out.push(rows[i].record.copy_record());
                proof {
                    assert(newest_first(one, user_id, cursor) =~= seq![all[i as int]]);
                    assert(records(newest_first(tail, user_id, cursor) + seq![all[i as int]]) =~= records(newest_first(tail, user_id, cursor)).push(all[i as int].record));
                }
            } else {
                proof {
                    assert(newest_first(one, user_id, cursor) =~= Seq::<StoredResult>::empty());
                    assert(newest_first(tail, user_id, cursor) + Seq::<StoredResult>::empty() =~= newest_first(tail, user_id, cursor));
                }
            }
        }
        proof {
            let head = all.subrange(0, i as int);
            let tail = all.subrange(i as int, all.len() as int);
            assert(all =~= head + tail);
            lemma_newest_first_concat(head, tail, user_id, cursor);
            let nf = newest_first(all, user_id, cursor);
            let nt = newest_first(tail, user_id, cursor);
            if i == 0 {
                assert(head =~= Seq::<StoredResult>::empty());
                assert(nf =~= nt);
            } else {
                assert(nt.len() == limit);
                if nf.len() > limit {
                    assert(nf.take(limit as int) =~= nt);
                } else {
                    assert(nf =~= nt);
                }
            }
        }
        out
    }

    /// One page of `user_id`'s history: at most `params.limit` results,
    /// newest first, below `params.cursor` if one is given, and the cursor
    /// that fetches the page after it (`0` when the page is empty).
    pub fn list_results(&self, user_id: u32, params: &GetResultsParams) -> (r: GetResultsResponse)
        ensures
            r.cursor == next_cursor(records(page_of(self@, user_id, params.cursor, params.limit))),
            r.results@ == records(page_of(self@, user_id, params.cursor, params.limit)).map_values(
                |w: TestResultWithId| without_id(w),
            ),
    {
        let rows = self.query_page(user_id, params.cursor, params.limit);
        page_response(&rows)
    }
}

} // verus!
