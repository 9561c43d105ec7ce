//! Session records, the aggregation pipeline (filter by live panes,
//! deduplicate per pane keeping the freshest record, sort by recency) and
//! enrichment from per-project index metadata.

use vstd::prelude::*;

use crate::text::str_eq;

verus! {

/// One coding-assistant session as persisted by the upstream tool, plus the
/// optional enrichment fields merged in from a project index.
pub struct Session {
    pub session_id: String,
    pub pane_id: String,
    pub cwd: String,
    pub status: String,
    pub notification_message: Option<String>,
    pub notification_type: Option<String>,
    pub updated: u64,
    pub summary: Option<String>,
    pub first_prompt: Option<String>,
    pub message_count: Option<u32>,
    pub git_branch: Option<String>,
    pub modified: Option<String>,
}

/// The mathematical image of a `Session`: every text field as its character
/// sequence.
#[verifier::ext_equal]
pub ghost struct SessionModel {
    pub session_id: Seq<char>,
    pub pane_id: Seq<char>,
    pub cwd: Seq<char>,
    pub status: Seq<char>,
    pub notification_message: Option<Seq<char>>,
    pub notification_type: Option<Seq<char>>,
    pub updated: u64,
    pub summary: Option<Seq<char>>,
    pub first_prompt: Option<Seq<char>>,
    pub message_count: Option<u32>,
    pub git_branch: Option<Seq<char>>,
    pub modified: Option<Seq<char>>,
}

impl View for Session {
    type V = SessionModel;

    open spec fn view(&self) -> SessionModel {
        SessionModel {
            session_id: self.session_id@,
            pane_id: self.pane_id@,
            cwd: self.cwd@,
            status: self.status@,
            notification_message: self.notification_message.deep_view(),
            notification_type: self.notification_type.deep_view(),
            updated: self.updated,
            summary: self.summary.deep_view(),
            first_prompt: self.first_prompt.deep_view(),
            message_count: self.message_count,
            git_branch: self.git_branch.deep_view(),
            modified: self.modified.deep_view(),
        }
    }
}

impl DeepView for Session {
    type V = SessionModel;

    open spec fn deep_view(&self) -> SessionModel {
        self.view()
    }
}

/// Enrichment metadata for one session, as found in a project index.
pub struct IndexEntry {
    pub session_id: String,
    pub summary: Option<String>,
    pub first_prompt: Option<String>,
    pub message_count: Option<u32>,
    pub git_branch: Option<String>,
    pub modified: Option<String>,
}

/// The mathematical image of an `IndexEntry`.
#[verifier::ext_equal]
pub ghost struct IndexEntryModel {
    pub session_id: Seq<char>,
    pub summary: Option<Seq<char>>,
    pub first_prompt: Option<Seq<char>>,
    pub message_count: Option<u32>,
    pub git_branch: Option<Seq<char>>,
    pub modified: Option<Seq<char>>,
}

impl View for IndexEntry {
    type V = IndexEntryModel;

    open spec fn view(&self) -> IndexEntryModel {
        IndexEntryModel {
            session_id: self.session_id@,
            summary: self.summary.deep_view(),
            first_prompt: self.first_prompt.deep_view(),
            message_count: self.message_count,
            git_branch: self.git_branch.deep_view(),
            modified: self.modified.deep_view(),
        }
    }
}

impl DeepView for IndexEntry {
    type V = IndexEntryModel;

    open spec fn deep_view(&self) -> IndexEntryModel {
        self.view()
    }
}

/// The index entries loaded for one working directory.
pub struct ProjectIndex {
    pub cwd: String,
    pub entries: Vec<IndexEntry>,
}

/// The mathematical image of a `ProjectIndex`.
#[verifier::ext_equal]
pub ghost struct ProjectIndexModel {
    pub cwd: Seq<char>,
    pub entries: Seq<IndexEntryModel>,
}

impl View for ProjectIndex {
    type V = ProjectIndexModel;

    open spec fn view(&self) -> ProjectIndexModel {
        ProjectIndexModel { cwd: self.cwd@, entries: self.entries.deep_view() }
    }
}

impl DeepView for ProjectIndex {
    type V = ProjectIndexModel;

    open spec fn deep_view(&self) -> ProjectIndexModel {
        self.view()
    }
}

/// The position of the first session whose id is `sid`, or -1 when none has
/// that id.
pub open spec fn find_session(s: Seq<SessionModel>, sid: Seq<char>) -> int
    decreases s.len(),
{
    if s.len() == 0 {
        -1
    } else if s.first().session_id == sid {
        0
    } else {
        let r = find_session(s.drop_first(), sid);
        if r == -1 {
            -1
        } else {
            r + 1
        }
    }
}

/// `find_session` returns the position of the first session with the id,
/// or -1 when the id does not occur.
pub proof fn lemma_find_session(s: Seq<SessionModel>, sid: Seq<char>)
    ensures
        ({
            let r = find_session(s, sid);
            &&& (r == -1 <==> forall|i: int| 0 <= i < s.len() ==> s[i].session_id != sid)
            &&& r != -1 ==> {
                &&& 0 <= r < s.len()
                &&& s[r].session_id == sid
                &&& forall|i: int| 0 <= i < r ==> s[i].session_id != sid
            }
        }),
    decreases s.len(),
{
    if s.len() > 0 {
        lemma_find_session(s.drop_first(), sid);
        if s.first().session_id != sid {
            let r1 = find_session(s.drop_first(), sid);
            if r1 == -1 {
                assert forall|i: int| 0 <= i < s.len() implies s[i].session_id != sid by {
                    if i > 0 {
                        assert(s.drop_first()[i - 1].session_id != sid);
                    }
                }
            } else {
                assert(s.drop_first()[r1] == s[r1 + 1]);
                assert forall|i: int| 0 <= i < r1 + 1 implies s[i].session_id != sid by {
                    if i > 0 {
                        assert(s.drop_first()[i - 1].session_id != sid);
                    }
                }
            }
        }
    }
}

/// The first session in `sessions` whose id is `session_id`, if any.
pub fn find_session_by_id<'a>(sessions: &'a [Session], session_id: &str) -> (r: Option<
    &'a Session,
>)
    ensures
        ({
            let f = find_session(sessions.deep_view(), session_id@);
            match r {
                Some(s) => f >= 0 && *s == sessions@[f],
                None => f == -1,
            }
        }),
{
    proof {
        lemma_find_session(sessions.deep_view(), session_id@);
    }
    let n = sessions.len();
    let mut i: usize = 0;
    while i < n
        invariant
            i <= n,
            n == sessions@.len(),
            forall|k: int| 0 <= k < i ==> sessions.deep_view()[k].session_id != session_id@,
        decreases n - i,
    {
        if str_eq(sessions[i].session_id.as_str(), session_id) {
            proof {
                lemma_find_session(sessions.deep_view(), session_id@);
                let dv = sessions.deep_view();
                let f = find_session(dv, session_id@);
                assert(dv[i as int].session_id == session_id@);
                if f == -1 {
                    assert(dv[i as int].session_id != session_id@);
                }
                if 0 <= f < i {
                    assert(dv[f].session_id != session_id@);
                }
                if i < f {
                    assert(dv[i as int].session_id != session_id@);
                }
                assert(f == i);
            }
            return Some(&sessions[i]);
        }
        i = i + 1;
    }
    None
}

/// The position of the first session in `acc` hosted by pane `pane`, or -1
/// when no session in `acc` is.
pub open spec fn find_pane(acc: Seq<SessionModel>, pane: Seq<char>) -> int
    decreases acc.len(),
{
    if acc.len() == 0 {
        -1
    } else if acc.first().pane_id == pane {
        0
    } else {
        let r = find_pane(acc.drop_first(), pane);
        if r == -1 {
            -1
        } else {
            r + 1
        }
    }
}

/// `find_pane` returns the position of the first session with the pane, or
/// -1 when the pane does not occur.
pub proof fn lemma_find_pane(acc: Seq<SessionModel>, pane: Seq<char>)
    ensures
        ({
            let r = find_pane(acc, pane);
            &&& (r == -1 <==> forall|i: int| 0 <= i < acc.len() ==> acc[i].pane_id != pane)
            &&& r != -1 ==> {
                &&& 0 <= r < acc.len()
                &&& acc[r].pane_id == pane
                &&& forall|i: int| 0 <= i < r ==> acc[i].pane_id != pane
            }
        }),
    decreases acc.len(),
{
    if acc.len() > 0 {
        lemma_find_pane(acc.drop_first(), pane);
        if acc.first().pane_id != pane {
            let r1 = find_pane(acc.drop_first(), pane);
            if r1 == -1 {
                assert forall|i: int| 0 <= i < acc.len() implies acc[i].pane_id != pane by {
                    if i > 0 {
                        assert(acc.drop_first()[i - 1].pane_id != pane);
                    }
                }
            } else {
                assert(acc.drop_first()[r1] == acc[r1 + 1]);
                assert forall|i: int| 0 <= i < r1 + 1 implies acc[i].pane_id != pane by {
                    if i > 0 {
                        assert(acc.drop_first()[i - 1].pane_id != pane);
                    }
                }
            }
        }
    }
}

/// How one record changes the per-pane accumulator: a record for a pane that
/// is not live is dropped; a record for a new live pane is appended; a record
/// for an already-seen pane replaces the held one only when strictly fresher.
pub open spec fn dedup_step(
    acc: Seq<SessionModel>,
    x: SessionModel,
    live: Seq<Seq<char>>,
) -> Seq<SessionModel> {
    if !live.contains(x.pane_id) {
        acc
    } else {
        let j = find_pane(acc, x.pane_id);
        if j == -1 {
            acc.push(x)
        } else if x.updated > acc[j].updated {
            acc.update(j, x)
        } else {
            acc
        }
    }
}

/// The accumulator after the first `n` records have been folded in.
pub open spec fn dedup_upto(s: Seq<SessionModel>, live: Seq<Seq<char>>, n: int) -> Seq<
    SessionModel,
>
    decreases n,
{
    if n <= 0 {
        Seq::empty()
    } else {
        dedup_step(dedup_upto(s, live, n - 1), s[n - 1], live)
    }
}

/// The records that survive filtering to live panes and per-pane
/// deduplication, freshest record per pane, first-seen winning ties.
pub open spec fn dedup_sessions(s: Seq<SessionModel>, live: Seq<Seq<char>>) -> Seq<SessionModel> {
    dedup_upto(s, live, s.len() as int)
}

/// Whether `pane` occurs among the live pane identifiers.
fn pane_is_live(live: &Vec<String>, pane: &str) -> (r: bool)
    ensures
        r == live.deep_view().contains(pane@),
{
    let mut i: usize = 0;
    while i < live.len()
        invariant
            i <= live@.len(),
            forall|k: int| 0 <= k < i ==> live.deep_view()[k] != pane@,
        decreases live@.len() - i,
    {
        if str_eq(live[i].as_str(), pane) {
            proof {
                assert(live.deep_view()[i as int] == pane@);
            }
            return true;
        }
        i = i + 1;
    }
    false
}

/// The position of the first session in `acc` hosted by `pane`, if any.
fn find_pane_in(acc: &Vec<Session>, pane: &str) -> (r: Option<usize>)
    ensures
        ({
            let f = find_pane(acc.deep_view(), pane@);
            match r {
                Some(j) => f == j,
                None => f == -1,
            }
        }),
{
    let n = acc.len();
    let mut i: usize = 0;
    while i < n
        invariant
            i <= n,
            n == acc@.len(),
            forall|k: int| 0 <= k < i ==> acc.deep_view()[k].pane_id != pane@,
        decreases n - i,
    {
        if str_eq(acc[i].pane_id.as_str(), pane) {
            proof {
                lemma_find_pane(acc.deep_view(), pane@);
                let dv = acc.deep_view();
                let f = find_pane(dv, pane@);
                assert(dv[i as int].pane_id == pane@);
                if f == -1 {
                    assert(dv[i as int].pane_id != pane@);
                }
                if 0 <= f < i {
                    assert(dv[f].pane_id != pane@);
                }
                if i < f {
                    assert(dv[i as int].pane_id != pane@);
                }
                assert(f == i);
            }
            return Some(i);
        }
        i = i + 1;
    }
    proof {
        lemma_find_pane(acc.deep_view(), pane@);
    }
    None
}

/// Fold the records left to right into a per-pane accumulator.
fn dedup_by_pane(sessions: Vec<Session>, live: &Vec<String>) -> (r: Vec<Session>)
    ensures
        r.deep_view() == dedup_sessions(sessions.deep_view(), live.deep_view()),
{
    let ghost s0 = sessions.deep_view();
    let ghost lv = live.deep_view();
    let mut rest = sessions;
    let total = rest.len();
    let mut out: Vec<Session> = Vec::new();
    let mut idx: usize = 0;
    while rest.len() > 0
        invariant
            idx + rest@.len() == total,
            total == s0.len(),
            rest.deep_view() =~= s0.skip(idx as int),
            out.deep_view() =~= dedup_upto(s0, lv, idx as int),
            live.deep_view() == lv,
        decreases rest@.len(),
    {
        let ghost out_before = out.deep_view();
        let ghost rest_before = rest@;
        let ghost rest_before_dv = rest.deep_view();
        let x = rest.remove(0);
        proof {
            assert(rest_before_dv[0] == rest_before[0].deep_view());
            assert(x.deep_view() == s0[idx as int]);
            assert forall|k: int| 0 <= k < rest@.len() implies rest.deep_view()[k] == s0.skip(
                idx + 1,
            )[k] by {
                assert(rest@[k] == rest_before[k + 1]);
                assert(rest.deep_view()[k] == rest@[k].deep_view());
                assert(rest_before_dv[k + 1] == rest_before[k + 1].deep_view());
                assert(rest_before_dv[k + 1] == s0.skip(idx as int)[k + 1]);
            }
            assert(rest.deep_view() =~= s0.skip(idx + 1));
        }
        if pane_is_live(live, x.pane_id.as_str()) {
            match find_pane_in(&out, x.pane_id.as_str()) {
                Some(j) => {
                    proof {
                        lemma_find_pane(out_before, s0[idx as int].pane_id);
                    }
                    if x.updated > out[j].updated {
                        out.set(j, x);
                        proof {
                            assert(out.deep_view() =~= out_before.update(
                                j as int,
                                s0[idx as int],
                            ));
                        }
                    }
                },
                None => {
                    out.push(x);
                    proof {
                        assert(out.deep_view() =~= out_before.push(s0[idx as int]));
                    }
                },
            }
        }
        proof {
            assert(out.deep_view() =~= dedup_upto(s0, lv, idx + 1));
        }
        idx = idx + 1;
    }
    proof {
        assert(s0.len() == idx);
        assert(dedup_upto(s0, lv, idx as int) == dedup_sessions(s0, lv));
    }
    out
}

/// Where `x` lands when inserted into `t`: after every record at least as
/// fresh, before the first strictly staler one — so a stable descending
/// insertion.
pub open spec fn insert_desc(t: Seq<SessionModel>, x: SessionModel) -> Seq<SessionModel>
    decreases t.len(),
{
    if t.len() == 0 {
        seq![x]
    } else if t.first().updated >= x.updated {
        seq![t.first()] + insert_desc(t.drop_first(), x)
    } else {
        seq![x] + t
    }
}

/// The first `n` records of `s`, insertion-sorted by `updated` descending.
pub open spec fn sort_upto(s: Seq<SessionModel>, n: int) -> Seq<SessionModel>
    decreases n,
{
    if n <= 0 {
        Seq::empty()
    } else {
        insert_desc(sort_upto(s, n - 1), s[n - 1])
    }
}

/// `s` stably sorted by `updated` descending.
pub open spec fn sort_by_updated_desc(s: Seq<SessionModel>) -> Seq<SessionModel> {
    sort_upto(s, s.len() as int)
}

/// Inserting at the boundary position `p` — every record before `p` at least
/// as fresh as `x`, the record at `p` (if any) strictly staler — is what
/// `insert_desc` does.
pub proof fn lemma_insert_desc_at(t: Seq<SessionModel>, x: SessionModel, p: int)
    requires
        0 <= p <= t.len(),
        forall|k: int| 0 <= k < p ==> t[k].updated >= x.updated,
        p < t.len() ==> t[p].updated < x.updated,
    ensures
        insert_desc(t, x) == t.take(p) + seq![x] + t.skip(p),
    decreases p,
{
    if p == 0 {
        if t.len() == 0 {
            assert(insert_desc(t, x) =~= t.take(0) + seq![x] + t.skip(0));
        } else {
            assert(insert_desc(t, x) =~= t.take(0) + seq![x] + t.skip(0));
        }
    } else {
        let t1 = t.drop_first();
        lemma_insert_desc_at(t1, x, p - 1);
        assert(t.first().updated >= x.updated);
        assert(insert_desc(t, x) == seq![t.first()] + insert_desc(t1, x));
        assert(seq![t.first()] + (t1.take(p - 1) + seq![x] + t1.skip(p - 1)) =~= t.take(p)
            + seq![x] + t.skip(p));
    }
}

/// Insertion sort on the records, by `updated` descending, stable.
fn sort_sessions_by_updated(sessions: Vec<Session>) -> (r: Vec<Session>)
    ensures
        r.deep_view() == sort_by_updated_desc(sessions.deep_view()),
{
    let ghost s0 = sessions.deep_view();
    let mut rest = sessions;
    let total = rest.len();
    let mut out: Vec<Session> = Vec::new();
    let mut idx: usize = 0;
    while rest.len() > 0
        invariant
            idx + rest@.len() == total,
            total == s0.len(),
            out@.len() == idx,
            rest.deep_view() =~= s0.skip(idx as int),
            out.deep_view() =~= sort_upto(s0, idx as int),
        decreases rest@.len(),
    {
        let ghost out_before = out.deep_view();
        let ghost rest_before = rest@;
        let ghost rest_before_dv = rest.deep_view();
        let x = rest.remove(0);
        proof {
            assert(rest_before_dv[0] == rest_before[0].deep_view());
            assert(x.deep_view() == s0[idx as int]);
            assert forall|k: int| 0 <= k < rest@.len() implies rest.deep_view()[k] == s0.skip(
                idx + 1,
            )[k] by {
                assert(rest@[k] == rest_before[k + 1]);
                assert(rest.deep_view()[k] == rest@[k].deep_view());
                assert(rest_before_dv[k + 1] == rest_before[k + 1].deep_view());
                assert(rest_before_dv[k + 1] == s0.skip(idx as int)[k + 1]);
            }
            assert(rest.deep_view() =~= s0.skip(idx + 1));
        }
        let mut p: usize = 0;
        while p < out.len() && out[p].updated >= x.updated
            invariant
                p <= out@.len(),
                forall|k: int| 0 <= k < p ==> out.deep_view()[k].updated >= x.deep_view().updated,
            decreases out@.len() - p,
        {
            p = p + 1;
        }
        proof {
            lemma_insert_desc_at(out_before, s0[idx as int], p as int);
        }
        out.insert(p, x);
        proof {
            assert(out.deep_view() =~= out_before.take(p as int) + seq![s0[idx as int]]
                + out_before.skip(p as int));
            assert(out.deep_view() =~= sort_upto(s0, idx + 1));
        }
        idx = idx + 1;
    }
    proof {
        assert(sort_upto(s0, idx as int) == sort_by_updated_desc(s0));
    }
    out
}

/// The whole aggregation: filter to live panes, keep the freshest record per
/// pane, sort by recency.
pub open spec fn aggregate_spec(s: Seq<SessionModel>, live: Seq<Seq<char>>) -> Seq<SessionModel> {
    sort_by_updated_desc(dedup_sessions(s, live))
}

/// No two records are hosted by the same pane.
pub open spec fn pane_unique(s: Seq<SessionModel>) -> bool {
    forall|i: int, j: int| 0 <= i < j < s.len() ==> s[i].pane_id != s[j].pane_id
}

/// Every record is hosted by a live pane.
pub open spec fn all_live(s: Seq<SessionModel>, live: Seq<Seq<char>>) -> bool {
    forall|i: int| 0 <= i < s.len() ==> live.contains(#[trigger] s[i].pane_id)
}

/// No record of `s` on the same pane is fresher than the record `r` kept for
/// that pane.
pub open spec fn max_per_pane(r: Seq<SessionModel>, s: Seq<SessionModel>) -> bool {
    forall|i: int, k: int|
        0 <= i < r.len() && 0 <= k < s.len() && s[k].pane_id == r[i].pane_id ==> s[k].updated
            <= r[i].updated
}

/// Every kept record is one of the input records.
pub open spec fn from_input(r: Seq<SessionModel>, s: Seq<SessionModel>) -> bool {
    forall|i: int| 0 <= i < r.len() ==> s.contains(#[trigger] r[i])
}

/// Every input record on a live pane has a kept record for its pane.
pub open spec fn covers_live(
    r: Seq<SessionModel>,
    s: Seq<SessionModel>,
    live: Seq<Seq<char>>,
) -> bool {
    forall|k: int|
        0 <= k < s.len() && live.contains(#[trigger] s[k].pane_id) ==> exists|i: int|
            0 <= i < r.len() && r[i].pane_id == s[k].pane_id
}

/// The records are ordered by `updated`, freshest first.
pub open spec fn sorted_by_updated(r: Seq<SessionModel>) -> bool {
    forall|i: int, j: int| 0 <= i <= j < r.len() ==> r[i].updated >= r[j].updated
}

/// After deduplication no pane holds two records, and every kept record is
/// on a live pane, for any prefix of the input.
#[verifier::spinoff_prover]
pub proof fn lemma_dedup_unique_live(s: Seq<SessionModel>, live: Seq<Seq<char>>, n: int)
    requires
        0 <= n <= s.len(),
    ensures
        pane_unique(dedup_upto(s, live, n)),
        all_live(dedup_upto(s, live, n), live),
    decreases n,
{
    if n > 0 {
        lemma_dedup_unique_live(s, live, n - 1);
        let d0 = dedup_upto(s, live, n - 1);
        let x = s[n - 1];
        let d = dedup_upto(s, live, n);
        lemma_find_pane(d0, x.pane_id);
        let f = find_pane(d0, x.pane_id);
        if live.contains(x.pane_id) && f == -1 {
            assert(d == d0.push(x));
            assert forall|i: int, j: int| 0 <= i < j < d.len() implies d[i].pane_id
                != d[j].pane_id by {
                if j == d0.len() {
                    assert(d[i] == d0[i]);
                    assert(d0[i].pane_id != x.pane_id);
                } else {
                    assert(d[i] == d0[i] && d[j] == d0[j]);
                }
            }
            assert forall|i: int| 0 <= i < d.len() implies live.contains(
                #[trigger] d[i].pane_id,
            ) by {
                if i < d0.len() {
                    assert(d[i] == d0[i]);
                } else {
                    assert(d[i] == x);
                }
            }
        } else if live.contains(x.pane_id) && f != -1 && x.updated > d0[f].updated {
            assert(d == d0.update(f, x));
            assert forall|i: int, j: int| 0 <= i < j < d.len() implies d[i].pane_id
                != d[j].pane_id by {
                assert(d[i].pane_id == d0[i].pane_id);
                assert(d[j].pane_id == d0[j].pane_id);
            }
            assert forall|i: int| 0 <= i < d.len() implies live.contains(
                #[trigger] d[i].pane_id,
            ) by {
                assert(d[i].pane_id == d0[i].pane_id);
            }
        } else {
            assert(d == d0);
        }
    }
}

/// Every record that deduplication keeps is one of the input records of the
/// prefix it was given.
#[verifier::spinoff_prover]
pub proof fn lemma_dedup_from(s: Seq<SessionModel>, live: Seq<Seq<char>>, n: int)
    requires
        0 <= n <= s.len(),
    ensures
        forall|i: int|
            0 <= i < dedup_upto(s, live, n).len() ==> exists|k: int|
                0 <= k < n && s[k] == #[trigger] dedup_upto(s, live, n)[i],
    decreases n,
{
    if n > 0 {
        lemma_dedup_from(s, live, n - 1);
        let d0 = dedup_upto(s, live, n - 1);
        let x = s[n - 1];
        let d = dedup_upto(s, live, n);
        lemma_find_pane(d0, x.pane_id);
        let f = find_pane(d0, x.pane_id);
        assert forall|i: int|
            0 <= i < d.len() implies exists|k: int| 0 <= k < n && s[k] == #[trigger] d[i] by {
            if 0 <= i < d0.len() && d[i] == d0[i] {
                let k0 = choose|k0: int| 0 <= k0 < n - 1 && s[k0] == d0[i];
                assert(0 <= k0 < n && s[k0] == d[i]);
            } else {
                assert(s[n - 1] == d[i]);
            }
        }
    }
}

/// Every input record of the prefix that is on a live pane has a kept record
/// for its pane.
#[verifier::spinoff_prover]
pub proof fn lemma_dedup_covers(s: Seq<SessionModel>, live: Seq<Seq<char>>, n: int)
    requires
        0 <= n <= s.len(),
    ensures
        forall|k: int|
            0 <= k < n && live.contains(#[trigger] s[k].pane_id) ==> exists|i: int|
                0 <= i < dedup_upto(s, live, n).len() && dedup_upto(s, live, n)[i].pane_id
                    == s[k].pane_id,
    decreases n,
{
    if n > 0 {
        lemma_dedup_covers(s, live, n - 1);
        let d0 = dedup_upto(s, live, n - 1);
        let x = s[n - 1];
        let d = dedup_upto(s, live, n);
        lemma_find_pane(d0, x.pane_id);
        let f = find_pane(d0, x.pane_id);
        assert forall|k: int|
            0 <= k < n && live.contains(#[trigger] s[k].pane_id) implies exists|i: int|
            0 <= i < d.len() && d[i].pane_id == s[k].pane_id by {
            if k == n - 1 {
                if f == -1 {
                    assert(d == d0.push(x));
                    assert(d[d0.len() as int].pane_id == s[k].pane_id);
                } else if x.updated > d0[f].updated {
                    assert(d == d0.update(f, x));
                    assert(d[f].pane_id == s[k].pane_id);
                } else {
                    assert(d[f].pane_id == s[k].pane_id);
                }
            } else {
                let i0 = choose|i0: int| 0 <= i0 < d0.len() && d0[i0].pane_id == s[k].pane_id;
                if !live.contains(x.pane_id) || f == -1 || x.updated <= d0[f].updated {
                    assert(d[i0].pane_id == s[k].pane_id);
                } else {
                    assert(d == d0.update(f, x));
                    assert(d[i0].pane_id == d0[i0].pane_id);
                    assert(d[i0].pane_id == s[k].pane_id);
                }
            }
        }
    }
}

/// No input record of the prefix is fresher than the record kept for its
/// pane.
#[verifier::spinoff_prover]
#[verifier::rlimit(100)]
pub proof fn lemma_dedup_max(s: Seq<SessionModel>, live: Seq<Seq<char>>, n: int)
    requires
        0 <= n <= s.len(),
    ensures
        forall|i: int, k: int|
            0 <= i < dedup_upto(s, live, n).len() && 0 <= k < n && s[k].pane_id == dedup_upto(
                s,
                live,
                n,
            )[i].pane_id ==> s[k].updated <= dedup_upto(s, live, n)[i].updated,
    decreases n,
{
    if n > 0 {
        lemma_dedup_max(s, live, n - 1);
        lemma_dedup_unique_live(s, live, n - 1);
        lemma_dedup_covers(s, live, n - 1);
        let d0 = dedup_upto(s, live, n - 1);
        let x = s[n - 1];
        let d = dedup_upto(s, live, n);
        lemma_find_pane(d0, x.pane_id);
        let f = find_pane(d0, x.pane_id);
        assert forall|i: int, k: int|
            0 <= i < d.len() && 0 <= k < n && s[k].pane_id == d[i].pane_id implies s[k].updated
            <= d[i].updated by {
            if !live.contains(x.pane_id) {
                assert(d == d0);
                if k == n - 1 {
                    assert(live.contains(d0[i].pane_id));
                }
            } else if f == -1 {
                assert(d == d0.push(x));
                if i < d0.len() {
                    assert(d[i] == d0[i]);
                    if k == n - 1 {
                        assert(d0[i].pane_id != x.pane_id);
                    }
                } else {
                    assert(d[i] == x);
                    if k < n - 1 {
                        let j = choose|j: int| 0 <= j < d0.len() && d0[j].pane_id == s[k].pane_id;
                        assert(d0[j].pane_id != x.pane_id);
                    }
                }
            } else if x.updated > d0[f].updated {
                assert(d == d0.update(f, x));
                if k == n - 1 {
                    if i != f {
                        assert(d[i] == d0[i]);
                        assert(d0[i].pane_id != d0[f].pane_id);
                    }
                } else {
                    if i == f {
                        assert(s[k].updated <= d0[f].updated);
                    } else {
                        assert(d[i] == d0[i]);
                    }
                }
            } else {
                assert(d == d0);
                if k == n - 1 && i != f {
                    assert(d0[i].pane_id != d0[f].pane_id);
                }
            }
        }
    }
}

/// Inserting a record adds exactly it: the result is one longer, holds it,
/// and holds a record exactly when the record is it or was already there.
#[verifier::rlimit(100)]
pub proof fn lemma_insert_desc_elems(t: Seq<SessionModel>, x: SessionModel)
    ensures
        ({
            let r = insert_desc(t, x);
            &&& r.len() == t.len() + 1
            &&& exists|i: int| 0 <= i < r.len() && r[i] == x
            &&& forall|i: int|
                0 <= i < r.len() ==> (#[trigger] r[i] == x || exists|k: int|
                    0 <= k < t.len() && t[k] == r[i])
            &&& forall|k: int|
                0 <= k < t.len() ==> exists|i: int| 0 <= i < r.len() && r[i] == #[trigger] t[k]
        }),
    decreases t.len(),
{
    let r = insert_desc(t, x);
    if t.len() == 0 {
        assert(r[0] == x);
    } else if t.first().updated >= x.updated {
        let t1 = t.drop_first();
        lemma_insert_desc_elems(t1, x);
        let r1 = insert_desc(t1, x);
        assert(r == seq![t.first()] + r1);
        assert(r[0] == t[0]);
        let ix = choose|i: int| 0 <= i < r1.len() && r1[i] == x;
        assert(r[ix + 1] == x);
        assert forall|i: int|
            0 <= i < r.len() implies (#[trigger] r[i] == x || exists|k: int|
            0 <= k < t.len() && t[k] == r[i]) by {
            if i == 0 {
                assert(t[0] == r[i]);
            } else {
                assert(r[i] == r1[i - 1]);
                if r1[i - 1] != x {
                    let k = choose|k: int| 0 <= k < t1.len() && t1[k] == r1[i - 1];
                    assert(t[k + 1] == r[i]);
                }
            }
        }
        assert forall|k: int|
            0 <= k < t.len() implies exists|i: int| 0 <= i < r.len() && r[i] == #[trigger] t[k] by {
            if k == 0 {
                assert(r[0] == t[0]);
            } else {
                let i1 = choose|i1: int| 0 <= i1 < r1.len() && r1[i1] == t1[k - 1];
                assert(r[i1 + 1] == t[k]);
            }
        }
    } else {
        assert(r == seq![x] + t);
        assert(r[0] == x);
        assert forall|k: int|
            0 <= k < t.len() implies exists|i: int| 0 <= i < r.len() && r[i] == #[trigger] t[k] by {
            assert(r[k + 1] == t[k]);
        }
    }
}

/// Inserting a record on a pane not yet present keeps the panes unique.
pub proof fn lemma_insert_desc_unique(t: Seq<SessionModel>, x: SessionModel)
    requires
        pane_unique(t),
        forall|k: int| 0 <= k < t.len() ==> (#[trigger] t[k].pane_id) != x.pane_id,
    ensures
        pane_unique(insert_desc(t, x)),
    decreases t.len(),
{
    let r = insert_desc(t, x);
    if t.len() == 0 {
    } else if t.first().updated >= x.updated {
        let t1 = t.drop_first();
        lemma_insert_desc_unique(t1, x);
        lemma_insert_desc_elems(t1, x);
        let r1 = insert_desc(t1, x);
        assert(r == seq![t.first()] + r1);
        assert forall|i: int, j: int| 0 <= i < j < r.len() implies r[i].pane_id
            != r[j].pane_id by {
            if i == 0 {
                assert(r[j] == r1[j - 1]);
                if r1[j - 1] == x {
                    assert(t[0].pane_id != x.pane_id);
                } else {
                    let k = choose|k: int| 0 <= k < t1.len() && t1[k] == r1[j - 1];
                    assert(t[0].pane_id != t[k + 1].pane_id);
                }
            } else {
                assert(r[i] == r1[i - 1] && r[j] == r1[j - 1]);
            }
        }
    } else {
        assert(r == seq![x] + t);
        assert forall|i: int, j: int| 0 <= i < j < r.len() implies r[i].pane_id
            != r[j].pane_id by {
            if i == 0 {
                assert(r[j] == t[j - 1]);
            } else {
                assert(r[i] == t[i - 1] && r[j] == t[j - 1]);
            }
        }
    }
}

/// Inserting into a descending-sorted sequence keeps it sorted.
pub proof fn lemma_insert_desc_sorted(t: Seq<SessionModel>, x: SessionModel)
    requires
        sorted_by_updated(t),
    ensures
        sorted_by_updated(insert_desc(t, x)),
    decreases t.len(),
{
    let r = insert_desc(t, x);
    if t.len() == 0 {
    } else if t.first().updated >= x.updated {
        let t1 = t.drop_first();
        assert(sorted_by_updated(t1)) by {
            assert(forall|i: int, j: int|
                0 <= i <= j < t1.len() ==> t1[i] == t[i + 1] && t1[j] == t[j + 1]);
        }
        lemma_insert_desc_sorted(t1, x);
        lemma_insert_desc_elems(t1, x);
        let r1 = insert_desc(t1, x);
        assert(r == seq![t.first()] + r1);
        assert forall|i: int, j: int| 0 <= i <= j < r.len() implies r[i].updated
            >= r[j].updated by {
            if i == 0 && j > 0 {
                assert(r[j] == r1[j - 1]);
                if r1[j - 1] != x {
                    let k = choose|k: int| 0 <= k < t1.len() && t1[k] == r1[j - 1];
                    assert(t[0].updated >= t[k + 1].updated);
                }
            } else if i > 0 {
                assert(r[i] == r1[i - 1] && r[j] == r1[j - 1]);
            }
        }
    } else {
        assert(r == seq![x] + t);
        assert forall|i: int, j: int| 0 <= i <= j < r.len() implies r[i].updated
            >= r[j].updated by {
            if i == 0 && j > 0 {
                assert(r[j] == t[j - 1]);
                assert(t[0].updated >= t[j - 1].updated);
            } else if i > 0 {
                assert(r[i] == t[i - 1] && r[j] == t[j - 1]);
            }
        }
    }
}

/// What sorting a pane-unique sequence guarantees, for any prefix: the
/// result is ordered freshest first, keeps the panes unique, and holds
/// exactly the records of the prefix.
#[verifier::rlimit(100)]
pub proof fn lemma_sort_upto_props(s: Seq<SessionModel>, n: int)
    requires
        0 <= n <= s.len(),
        pane_unique(s),
    ensures
        ({
            let r = sort_upto(s, n);
            &&& r.len() == n
            &&& sorted_by_updated(r)
            &&& pane_unique(r)
            &&& forall|i: int|
                0 <= i < r.len() ==> exists|k: int| 0 <= k < n && s[k] == #[trigger] r[i]
            &&& forall|k: int|
                0 <= k < n ==> exists|i: int| 0 <= i < r.len() && r[i] == #[trigger] s[k]
        }),
    decreases n,
{
    if n > 0 {
        lemma_sort_upto_props(s, n - 1);
        let r0 = sort_upto(s, n - 1);
        let x = s[n - 1];
        let r = sort_upto(s, n);
        assert(r == insert_desc(r0, x));
        assert forall|k: int| 0 <= k < r0.len() implies (#[trigger] r0[k].pane_id)
            != x.pane_id by {
            let k0 = choose|k0: int| 0 <= k0 < n - 1 && s[k0] == r0[k];
            assert(s[k0].pane_id != s[n - 1].pane_id);
        }
        lemma_insert_desc_elems(r0, x);
        lemma_insert_desc_unique(r0, x);
        lemma_insert_desc_sorted(r0, x);
        assert forall|i: int|
            0 <= i < r.len() implies exists|k: int| 0 <= k < n && s[k] == #[trigger] r[i] by {
            if r[i] == x {
                assert(s[n - 1] == r[i]);
            } else {
                let k0 = choose|k0: int| 0 <= k0 < r0.len() && r0[k0] == r[i];
                let k1 = choose|k1: int| 0 <= k1 < n - 1 && s[k1] == r0[k0];
                assert(s[k1] == r[i]);
            }
        }
        assert forall|k: int|
            0 <= k < n implies exists|i: int| 0 <= i < r.len() && r[i] == #[trigger] s[k] by {
            if k == n - 1 {
                let i0 = choose|i0: int| 0 <= i0 < r.len() && r[i0] == x;
                assert(r[i0] == s[k]);
            } else {
                let i1 = choose|i1: int| 0 <= i1 < r0.len() && r0[i1] == s[k];
                let i2 = choose|i2: int| 0 <= i2 < r.len() && r[i2] == r0[i1];
                assert(r[i2] == s[k]);
            }
        }
    }
}

/// What the whole aggregation guarantees: at most one record per pane and it
/// the freshest that pane has; only records of the input, all on live panes;
/// a pane that has a live input record is represented; and the output is
/// ordered freshest first.
pub proof fn lemma_aggregate_props(s: Seq<SessionModel>, live: Seq<Seq<char>>)
    ensures
        ({
            let r = aggregate_spec(s, live);
            &&& pane_unique(r)
            &&& max_per_pane(r, s)
            &&& all_live(r, live)
            &&& from_input(r, s)
            &&& covers_live(r, s, live)
            &&& sorted_by_updated(r)
        }),
{
    lemma_dedup_unique_live(s, live, s.len() as int);
    lemma_dedup_from(s, live, s.len() as int);
    lemma_dedup_covers(s, live, s.len() as int);
    lemma_dedup_max(s, live, s.len() as int);
    let d = dedup_sessions(s, live);
    lemma_sort_upto_props(d, d.len() as int);
    let r = aggregate_spec(s, live);
    assert(r == sort_upto(d, d.len() as int));
    assert forall|i: int, k: int|
        0 <= i < r.len() && 0 <= k < s.len() && s[k].pane_id == r[i].pane_id implies s[k].updated
        <= r[i].updated by {
        let kd = choose|kd: int| 0 <= kd < d.len() && d[kd] == r[i];
    }
    assert forall|i: int| 0 <= i < r.len() implies live.contains(#[trigger] r[i].pane_id) by {
        let kd = choose|kd: int| 0 <= kd < d.len() && d[kd] == r[i];
    }
    assert forall|i: int| 0 <= i < r.len() implies s.contains(#[trigger] r[i]) by {
        let kd = choose|kd: int| 0 <= kd < d.len() && d[kd] == r[i];
        let k = choose|k: int| 0 <= k < s.len() && s[k] == d[kd];
        assert(s[k] == r[i]);
    }
    assert forall|k: int|
        0 <= k < s.len() && live.contains(#[trigger] s[k].pane_id) implies exists|i: int|
        0 <= i < r.len() && r[i].pane_id == s[k].pane_id by {
        let id = choose|id: int| 0 <= id < d.len() && d[id].pane_id == s[k].pane_id;
        let ir = choose|ir: int| 0 <= ir < r.len() && r[ir] == d[id];
        assert(r[ir].pane_id == s[k].pane_id);
    }
}

/// Aggregation is a function of its input alone: running it twice on the
/// same records and the same live panes yields the same output, in the same
/// order. `filter_active_sessions` pins its result to `aggregate_spec`, so
/// two runs on equal inputs return equal session lists.
pub proof fn lemma_aggregate_deterministic(
    s1: Seq<SessionModel>,
    live1: Seq<Seq<char>>,
    s2: Seq<SessionModel>,
    live2: Seq<Seq<char>>,
)
    requires
        s1 == s2,
        live1 == live2,
    ensures
        aggregate_spec(s1, live1) == aggregate_spec(s2, live2),
{
}

/// Enrichment is additive only: it never changes the base fields, a field
/// already set keeps its value, and a field it sets on a session without one
/// carries the matched entry's value.
pub proof fn lemma_enrich_additive(s: SessionModel, indexes: Seq<ProjectIndexModel>)
    ensures
        ({
            let e = enrich_one(s, indexes);
            &&& e.session_id == s.session_id
            &&& e.pane_id == s.pane_id
            &&& e.cwd == s.cwd
            &&& e.status == s.status
            &&& e.notification_message == s.notification_message
            &&& e.notification_type == s.notification_type
            &&& e.updated == s.updated
            &&& s.summary is Some ==> e.summary == s.summary
            &&& s.first_prompt is Some ==> e.first_prompt == s.first_prompt
            &&& s.message_count is Some ==> e.message_count == s.message_count
            &&& s.git_branch is Some ==> e.git_branch == s.git_branch
            &&& s.modified is Some ==> e.modified == s.modified
        }),
{
}

/// Keep, of the records hosted by a live pane, the freshest one per pane
/// (first-seen winning exact ties), ordered by `updated` descending.
pub fn filter_active_sessions(sessions: Vec<Session>, active_pane_ids: &Vec<String>) -> (r: Vec<
    Session,
>)
    ensures
        r.deep_view() == aggregate_spec(sessions.deep_view(), active_pane_ids.deep_view()),
{
    let deduped = dedup_by_pane(sessions, active_pane_ids);
    sort_sessions_by_updated(deduped)
}

/// Replace every path separator and every dot in a working-directory path
/// with a dash: the name of the directory that holds the project's index.
pub open spec fn spec_project_path(cwd: Seq<char>) -> Seq<char> {
    Seq::new(
        cwd.len(),
        |i: int|
            if cwd[i] == '/' || cwd[i] == '.' {
                '-'
            } else {
                cwd[i]
            },
    )
}

/// Derive the project-directory name for a working directory.
pub fn cwd_to_project_path(cwd: &str) -> (r: String)
    ensures
        r@ == spec_project_path(cwd@),
{
    proof {
        reveal_strlit("-");
    }
    let n = cwd.unicode_len();
    let mut out = String::new();
    let mut i: usize = 0;
    while i < n
        invariant
            i <= n,
            n == cwd@.len(),
            out@ =~= spec_project_path(cwd@).subrange(0, i as int),
        decreases n - i,
    {
        let c = cwd.get_char(i);
        if c == '/' || c == '.' {
            out.append("-");
        } else {
            let piece = cwd.substring_char(i, i + 1);
            out.append(piece);
        }
        proof {
            reveal_strlit("-");
            assert(out@ =~= spec_project_path(cwd@).subrange(0, i + 1));
        }
        i = i + 1;
    }
    proof {
        assert(spec_project_path(cwd@).subrange(0, n as int) =~= spec_project_path(cwd@));
    }
    out
}

/// The position of the first loaded index for working directory `cwd`, or -1
/// when none was loaded for it.
pub open spec fn find_index(indexes: Seq<ProjectIndexModel>, cwd: Seq<char>) -> int
    decreases indexes.len(),
{
    if indexes.len() == 0 {
        -1
    } else if indexes.first().cwd == cwd {
        0
    } else {
        let r = find_index(indexes.drop_first(), cwd);
        if r == -1 {
            -1
        } else {
            r + 1
        }
    }
}

/// `find_index` returns the position of the first index with the working
/// directory, or -1 when the directory does not occur.
pub proof fn lemma_find_index(indexes: Seq<ProjectIndexModel>, cwd: Seq<char>)
    ensures
        ({
            let r = find_index(indexes, cwd);
            &&& (r == -1 <==> forall|i: int| 0 <= i < indexes.len() ==> indexes[i].cwd != cwd)
            &&& r != -1 ==> {
                &&& 0 <= r < indexes.len()
                &&& indexes[r].cwd == cwd
                &&& forall|i: int| 0 <= i < r ==> indexes[i].cwd != cwd
            }
        }),
    decreases indexes.len(),
{
    if indexes.len() > 0 {
        lemma_find_index(indexes.drop_first(), cwd);
        if indexes.first().cwd != cwd {
            let r1 = find_index(indexes.drop_first(), cwd);
            if r1 == -1 {
                assert forall|i: int| 0 <= i < indexes.len() implies indexes[i].cwd != cwd by {
                    if i > 0 {
                        assert(indexes.drop_first()[i - 1].cwd != cwd);
                    }
                }
            } else {
                assert(indexes.drop_first()[r1] == indexes[r1 + 1]);
                assert forall|i: int| 0 <= i < r1 + 1 implies indexes[i].cwd != cwd by {
                    if i > 0 {
                        assert(indexes.drop_first()[i - 1].cwd != cwd);
                    }
                }
            }
        }
    }
}

/// The position of the last entry for session `sid`, or -1 when no entry is
/// for it. The last entry wins, as when the entries are folded into a map.
pub open spec fn find_entry(entries: Seq<IndexEntryModel>, sid: Seq<char>) -> int
    decreases entries.len(),
{
    if entries.len() == 0 {
        -1
    } else if entries.last().session_id == sid {
        entries.len() - 1
    } else {
        find_entry(entries.drop_last(), sid)
    }
}

/// `find_entry` returns the position of the last entry with the session id,
/// or -1 when the id does not occur.
pub proof fn lemma_find_entry(entries: Seq<IndexEntryModel>, sid: Seq<char>)
    ensures
        ({
            let r = find_entry(entries, sid);
            &&& (r == -1 <==> forall|i: int| 0 <= i < entries.len() ==> entries[i].session_id
                != sid)
            &&& r != -1 ==> {
                &&& 0 <= r < entries.len()
                &&& entries[r].session_id == sid
                &&& forall|i: int| r < i < entries.len() ==> entries[i].session_id != sid
            }
        }),
    decreases entries.len(),
{
    if entries.len() > 0 {
        lemma_find_entry(entries.drop_last(), sid);
        assert(forall|i: int|
            0 <= i < entries.len() - 1 ==> entries.drop_last()[i] == entries[i]);
    }
}

/// The session with the enrichment fields merged in from the loaded indexes:
/// the first index loaded for the session's working directory is consulted,
/// within it the last entry for the session's id; each enrichment field is
/// copied only when still unset. Base fields never change, and a session
/// without a matching index or entry is returned unchanged.
pub open spec fn enrich_one(s: SessionModel, indexes: Seq<ProjectIndexModel>) -> SessionModel {
    let ix = find_index(indexes, s.cwd);
    if ix == -1 {
        s
    } else {
        let entries = indexes[ix].entries;
        let e = find_entry(entries, s.session_id);
        if e == -1 {
            s
        } else {
            let ent = entries[e];
            SessionModel {
                summary: if s.summary is Some {
                    s.summary
                } else {
                    ent.summary
                },
                first_prompt: if s.first_prompt is Some {
                    s.first_prompt
                } else {
                    ent.first_prompt
                },
                message_count: if s.message_count is Some {
                    s.message_count
                } else {
                    ent.message_count
                },
                git_branch: if s.git_branch is Some {
                    s.git_branch
                } else {
                    ent.git_branch
                },
                modified: if s.modified is Some {
                    s.modified
                } else {
                    ent.modified
                },
                ..s
            }
        }
    }
}

/// The position of the first loaded index for `cwd`, if any.
fn find_index_in(indexes: &Vec<ProjectIndex>, cwd: &str) -> (r: Option<usize>)
    ensures
        ({
            let f = find_index(indexes.deep_view(), cwd@);
            match r {
                Some(j) => f == j && j < indexes@.len(),
                None => f == -1,
            }
        }),
{
    let n = indexes.len();
    let mut i: usize = 0;
    while i < n
        invariant
            i <= n,
            n == indexes@.len(),
            forall|k: int| 0 <= k < i ==> indexes.deep_view()[k].cwd != cwd@,
        decreases n - i,
    {
        if str_eq(indexes[i].cwd.as_str(), cwd) {
            proof {
                lemma_find_index(indexes.deep_view(), cwd@);
                let dv = indexes.deep_view();
                let f = find_index(dv, cwd@);
                assert(dv[i as int].cwd == cwd@);
                if f == -1 {
                    assert(dv[i as int].cwd != cwd@);
                }
                if 0 <= f < i {
                    assert(dv[f].cwd != cwd@);
                }
                if i < f {
                    assert(dv[i as int].cwd != cwd@);
                }
                assert(f == i);
            }
            return Some(i);
        }
        i = i + 1;
    }
    proof {
        lemma_find_index(indexes.deep_view(), cwd@);
    }
    None
}

/// The position of the last entry for session `sid`, if any.
fn find_entry_in(entries: &Vec<IndexEntry>, sid: &str) -> (r: Option<usize>)
    ensures
        ({
            let f = find_entry(entries.deep_view(), sid@);
            match r {
                Some(j) => f == j && j < entries@.len(),
                None => f == -1,
            }
        }),
{
    let n = entries.len();
    let mut i: usize = 0;
    let mut best: Option<usize> = None;
    while i < n
        invariant
            i <= n,
            n == entries@.len(),
            match best {
                Some(b) => {
                    &&& b < i
                    &&& entries.deep_view()[b as int].session_id == sid@
                    &&& forall|k: int| b < k < i ==> entries.deep_view()[k].session_id != sid@
                },
                None => forall|k: int| 0 <= k < i ==> entries.deep_view()[k].session_id != sid@,
            },
        decreases n - i,
    {
        if str_eq(entries[i].session_id.as_str(), sid) {
            best = Some(i);
        }
        i = i + 1;
    }
    proof {
        lemma_find_entry(entries.deep_view(), sid@);
        let dv = entries.deep_view();
        let f = find_entry(dv, sid@);
        match best {
            Some(b) => {
                assert(dv[b as int].session_id == sid@);
                if f == -1 {
                    assert(dv[b as int].session_id != sid@);
                }
                if 0 <= f < b {
                    assert(dv[b as int].session_id != sid@);
                }
                if b < f {
                    assert(dv[f].session_id != sid@);
                }
                assert(f == b);
            },
            None => {
                if f != -1 {
                    assert(dv[f].session_id != sid@);
                }
            },
        }
    }
    best
}

/// A copy of an optional text value.
fn clone_opt(o: &Option<String>) -> (r: Option<String>)
    ensures
        r == *o,
{
    match o {
        Some(s) => Some(s.clone()),
        None => None,
    }
}

/// Merge enrichment fields into every session from the indexes loaded for
/// the sessions' working directories. Only unset fields become set; sessions
/// without a matching index entry stay as they are; nothing ever fails.
#[verifier::rlimit(100)]
pub fn enrich_sessions_with_index(sessions: &mut Vec<Session>, indexes: &Vec<ProjectIndex>)
    ensures
        final(sessions)@.len() == old(sessions)@.len(),
        forall|i: int|
            0 <= i < old(sessions)@.len() ==> final(sessions).deep_view()[i] == enrich_one(
                old(sessions).deep_view()[i],
                indexes.deep_view(),
            ),
{
    let ghost orig = old(sessions).deep_view();
    let ghost ixs = indexes.deep_view();
    let n = sessions.len();
    let mut i: usize = 0;
    while i < n
        invariant
            i <= n,
            n == sessions@.len(),
            n == orig.len(),
            indexes.deep_view() == ixs,
            forall|k: int| 0 <= k < i ==> sessions.deep_view()[k] == enrich_one(orig[k], ixs),
            forall|k: int| i <= k < n ==> sessions.deep_view()[k] == orig[k],
        decreases n - i,
    {
        let ghost before = sessions.deep_view();
        let ghost before_v = sessions@;
        let mut s = sessions.remove(i);
        proof {
            assert(before[i as int] == before_v[i as int].deep_view());
            assert(before[i as int] == orig[i as int]);
            assert(s.deep_view() == orig[i as int]);
        }
        if let Some(ix) = find_index_in(indexes, s.cwd.as_str()) {
            if let Some(e) = find_entry_in(&indexes[ix].entries, s.session_id.as_str()) {
                proof {
                    assert(indexes.deep_view()[ix as int].entries =~= indexes@[ix as int]
                        .entries
                        .deep_view());
                }
                let ent = &indexes[ix].entries[e];
                proof {
                    assert(ent.deep_view() == indexes.deep_view()[ix as int].entries[e as int]);
                }
                if s.summary.is_none() {
                    s.summary = clone_opt(&ent.summary);
                }
                if s.first_prompt.is_none() {
                    s.first_prompt = clone_opt(&ent.first_prompt);
                }
                if s.message_count.is_none() {
                    s.message_count = ent.message_count;
                }
                if s.git_branch.is_none() {
                    s.git_branch = clone_opt(&ent.git_branch);
                }
                if s.modified.is_none() {
                    s.modified = clone_opt(&ent.modified);
                }
                proof {
                    assert(s.deep_view() =~= enrich_one(orig[i as int], ixs));
                }
            } else {
                proof {
                    assert(s.deep_view() =~= enrich_one(orig[i as int], ixs));
                }
            }
        } else {
            proof {
                assert(s.deep_view() =~= enrich_one(orig[i as int], ixs));
            }
        }
        sessions.insert(i, s);
        proof {
            let mid = before_v.remove(i as int);
            mid.insert_ensures(i as int, s);
            before_v.remove_ensures(i as int);
            assert forall|k: int| 0 <= k < n implies sessions.deep_view()[k] == (if k == i as int {
                s.deep_view()
            } else {
                before[k]
            }) by {
                if k < i {
                    assert(mid.insert(i as int, s)[k] == mid[k]);
                    assert(mid[k] == before_v[k]);
                } else if k == i as int {
                    assert(mid.insert(i as int, s)[k] == s);
                } else {
                    assert(mid.insert(i as int, s)[k] == mid[k - 1]);
                    assert(mid[k - 1] == before_v[k]);
                }
                assert(sessions.deep_view()[k] == sessions@[k].deep_view());
                assert(before[k] == before_v[k].deep_view());
            }
        }
        i = i + 1;
    }
}

/// The working directories of the sessions, first occurrence of each kept,
/// in order of first occurrence.
pub open spec fn dedup_firsts(s: Seq<Seq<char>>) -> Seq<Seq<char>>
    decreases s.len(),
{
    if s.len() == 0 {
        Seq::empty()
    } else {
        let prev = dedup_firsts(s.drop_last());
        if prev.contains(s.last()) {
            prev
        } else {
            prev.push(s.last())
        }
    }
}

/// The working directory of each session, in order.
pub open spec fn cwds_of(s: Seq<SessionModel>) -> Seq<Seq<char>> {
    Seq::new(s.len(), |i: int| s[i].cwd)
}

/// Whether `needle` occurs among the strings of `v`.
fn contains_string(v: &Vec<String>, needle: &str) -> (r: bool)
    ensures
        r == v.deep_view().contains(needle@),
{
    let mut i: usize = 0;
    while i < v.len()
        invariant
            i <= v@.len(),
            forall|k: int| 0 <= k < i ==> v.deep_view()[k] != needle@,
        decreases v@.len() - i,
    {
        if str_eq(v[i].as_str(), needle) {
            proof {
                assert(v.deep_view()[i as int] == needle@);
            }
            return true;
        }
        i = i + 1;
    }
    false
}

/// The distinct working directories of the sessions, in order of first
/// occurrence — the directories whose project index one aggregation pass
/// loads, each exactly once.
pub fn distinct_cwds(sessions: &Vec<Session>) -> (r: Vec<String>)
    ensures
        r.deep_view() == dedup_firsts(cwds_of(sessions.deep_view())),
{
    let ghost cs = cwds_of(sessions.deep_view());
    let n = sessions.len();
    let mut out: Vec<String> = Vec::new();
    let mut i: usize = 0;
    while i < n
        invariant
            i <= n,
            n == sessions@.len(),
            cs == cwds_of(sessions.deep_view()),
            cs.len() == n,
            out.deep_view() =~= dedup_firsts(cs.take(i as int)),
        decreases n - i,
    {
        let ghost out_before = out.deep_view();
        proof {
            assert(cs.len() == sessions.deep_view().len());
            assert(cs.take(i + 1).drop_last() =~= cs.take(i as int));
            assert(cs.take(i + 1).last() == sessions.deep_view()[i as int].cwd);
        }
        if !contains_string(&out, sessions[i].cwd.as_str()) {
            let c = sessions[i].cwd.clone();
            out.push(c);
            proof {
                assert(out.deep_view() =~= out_before.push(
                    sessions.deep_view()[i as int].cwd,
                ));
            }
        }
        i = i + 1;
    }
    proof {
        assert(cs.take(n as int) =~= cs);
    }
    out
}

} // verus!
