//! The commit chain that records the snapshots: which files each commit
//! rewrites, its time, its message and its parent.
use vstd::prelude::*;
use vstd::string::*;
use crate::snapshot::{snaps_view, CobraCubeSnapshot, SnapView};

verus! {

/// 0000-01-01T00:00:00Z, in seconds since the epoch.
pub const FIRST_RFC2822_SECOND: i64 = -62167219200;

/// 9999-12-31T23:59:59Z, in seconds since the epoch.
pub const LAST_RFC2822_SECOND: i64 = 253402300799;

/// The description line of every commit.
pub const COMMIT_DESCRIPTION: &'static str = "change mode";

#[derive(PartialEq, Eq, Structural, Debug, Clone, Copy)]
pub enum HistoryError {
    /// A snapshot's time lies outside the years that RFC 2822 can write.
    TimestampOutOfRange,
}

/// The RFC 2822 rendering, in UTC, of a time given in seconds.
pub uninterp spec fn rfc2822_text(secs: int) -> Seq<char>;

/// Relies on chrono::DateTime::from_timestamp, which gives a time for every
/// second of years 0 through 9999, and DateTime::to_rfc2822, which renders it
/// without panicking for those years.
#[verifier::external_body]
fn rfc2822_of(secs: i64) -> (r: Option<String>)
    requires
        FIRST_RFC2822_SECOND <= secs <= LAST_RFC2822_SECOND,
    ensures
        r is Some,
        r matches Some(s) ==> s@ == rfc2822_text(secs as int),
{
    chrono::DateTime::from_timestamp(secs, 0).map(|d| d.to_rfc2822())
}

/// Whole seconds of a time in milliseconds, rounded down.
pub fn seconds_of(millis: i64) -> (r: i64)
    ensures
        r as int == millis as int / 1000,
{
    if millis >= 0 {
        millis / 1000
    } else {
        let n: i64 = -(millis + 1);
        let q: i64 = n / 1000;
        proof {
            let r = n as int % 1000;
            assert(n as int == 1000 * q + r) by (nonlinear_arith)
                requires
                    q == n as int / 1000,
                    r == n as int % 1000,
            ;
            assert(millis as int == 1000 * (-q - 1) + (999 - r));
            assert(0 <= 999 - r < 1000);
            vstd::arithmetic::div_mod::lemma_fundamental_div_mod_converse(
                millis as int,
                1000,
                -q - 1,
                999 - r,
            );
        }
        -q - 1
    }
}

/// The message of a commit at `millis`: the time in RFC 2822 form, a line
/// break, then `description`; none where the time cannot be written so.
pub open spec fn message_spec(millis: i64, description: Seq<char>) -> Option<Seq<char>> {
    let secs = millis as int / 1000;
    if FIRST_RFC2822_SECOND <= secs <= LAST_RFC2822_SECOND {
        Some(rfc2822_text(secs) + seq!['\n'] + description)
    } else {
        None
    }
}

pub fn commit_message(millis: i64, description: &str) -> (r: Option<String>)
    ensures
        r matches Some(s) ==> message_spec(millis, description@) == Some(s@),
        r is None ==> message_spec(millis, description@) is None,
{
    let secs = seconds_of(millis);
    if secs < FIRST_RFC2822_SECOND || secs > LAST_RFC2822_SECOND {
        return None;
    }
    match rfc2822_of(secs) {
        Some(mut text) => {
            proof {
                reveal_strlit("\n");
            }
            text.append("\n");
            text.append(description);
            Some(text)
        },
        None => None,
    }
}

/// One commit to make: the snapshot it records, the commit before it in the
/// chain (by position in the plan), which board files it rewrites, its time
/// in whole seconds and its message.
pub struct CommitStep {
    pub snapshot: usize,
    pub parent: Option<usize>,
    pub write_main: bool,
    pub write_mayb: bool,
    pub seconds: i64,
    pub message: String,
}

pub struct StepView {
    pub snapshot: int,
    pub parent: Option<int>,
    pub write_main: bool,
    pub write_mayb: bool,
    pub seconds: int,
    pub message: Seq<char>,
}

impl View for CommitStep {
    type V = StepView;

    open spec fn view(&self) -> StepView {
        StepView {
            snapshot: self.snapshot as int,
            parent: match self.parent {
                Some(p) => Some(p as int),
                None => None,
            },
            write_main: self.write_main,
            write_mayb: self.write_mayb,
            seconds: self.seconds as int,
            message: self.message@,
        }
    }
}

pub open spec fn steps_view(s: Seq<CommitStep>) -> Seq<StepView> {
    s.map_values(|x: CommitStep| x@)
}

pub open spec fn has_board(s: SnapView) -> bool {
    s.main is Some || s.mayb is Some
}

/// The commits for `snaps`, oldest first: one for each snapshot that holds a
/// board, each the child of the one before.
pub open spec fn plan_spec(snaps: Seq<SnapView>, description: Seq<char>) -> Result<
    Seq<StepView>,
    HistoryError,
>
    decreases snaps.len(),
{
    if snaps.len() == 0 {
        Ok(Seq::empty())
    } else {
        match plan_spec(snaps.drop_last(), description) {
            Err(e) => Err(e),
            Ok(p) => {
                let s = snaps.last();
                if has_board(s) {
                    match message_spec(s.timestamp, description) {
                        Some(msg) => Ok(
                            p.push(
                                StepView {
                                    snapshot: snaps.len() - 1,
                                    parent: if p.len() == 0 {
                                        None
                                    } else {
                                        Some(p.len() - 1)
                                    },
                                    write_main: s.main is Some,
                                    write_mayb: s.mayb is Some,
                                    seconds: s.timestamp as int / 1000,
                                    message: msg,
                                },
                            ),
                        ),
                        None => Err(HistoryError::TimestampOutOfRange),
                    }
                } else {
                    Ok(p)
                }
            },
        }
    }
}

proof fn lemma_plan_err(snaps: Seq<SnapView>, d: Seq<char>, i: int)
    requires
        0 <= i <= snaps.len(),
        plan_spec(snaps.subrange(0, i), d) is Err,
    ensures
        plan_spec(snaps, d) == plan_spec(snaps.subrange(0, i), d),
    decreases snaps.len() - i,
{
    if i < snaps.len() {
        assert(snaps.subrange(0, i + 1).drop_last() =~= snaps.subrange(0, i));
        lemma_plan_err(snaps, d, i + 1);
    } else {
        assert(snaps.subrange(0, i) =~= snaps);
    }
}

/// The commits that record `snapshots` (oldest first), each with the fixed
/// description line.
pub fn plan_history(snapshots: &Vec<CobraCubeSnapshot>) -> (r: Result<
    Vec<CommitStep>,
    HistoryError,
>)
    ensures
        match plan_spec(snaps_view(snapshots@), COMMIT_DESCRIPTION@) {
            Ok(p) => r is Ok && steps_view(r->Ok_0@) == p,
            Err(e) => r is Err && r->Err_0 == e,
        },
{
    let ghost sv = snaps_view(snapshots@);
    let mut steps: Vec<CommitStep> = Vec::new();
    let mut i: usize = 0;
    assert(sv.subrange(0, 0) =~= Seq::<SnapView>::empty());
    assert(steps_view(steps@) =~= Seq::<StepView>::empty());
    while i < snapshots.len()
        invariant
            i <= snapshots@.len(),
            sv == snaps_view(snapshots@),
            plan_spec(sv.subrange(0, i as int), COMMIT_DESCRIPTION@) == Ok::<
                Seq<StepView>,
                HistoryError,
            >(steps_view(steps@)),
        decreases snapshots@.len() - i,
    {
        let snap = &snapshots[i];
        assert(sv.subrange(0, i + 1).drop_last() =~= sv.subrange(0, i as int));
        assert(sv.subrange(0, i + 1).last() == snap@);
        let write_main = snap.main.is_some();
        let write_mayb = snap.mayb.is_some();
        if write_main || write_mayb {
            match commit_message(snap.timestamp, COMMIT_DESCRIPTION) {
                Some(message) => {
                    let parent = if steps.len() == 0 {
                        None
                    } else {
                        Some(steps.len() - 1)
                    };
                    let ghost before = steps@;
                    steps.push(
                        CommitStep {
                            snapshot: i,
                            parent,
                            write_main,
                            write_mayb,
                            seconds: seconds_of(snap.timestamp),
                            message,
                        },
                    );
                    assert(steps_view(steps@) =~= steps_view(before).push(steps@.last()@));
                },
                None => {
                    proof {
                        lemma_plan_err(sv, COMMIT_DESCRIPTION@, i + 1);
                    }
                    return Err(HistoryError::TimestampOutOfRange);
                },
            }
        }
        i = i + 1;
    }
    assert(sv.subrange(0, i as int) =~= sv);
    Ok(steps)
}

/// How many of `snaps` hold a board.
pub open spec fn count_with_board(snaps: Seq<SnapView>) -> nat
    decreases snaps.len(),
{
    if snaps.len() == 0 {
        0
    } else {
        count_with_board(snaps.drop_last()) + if has_board(snaps.last()) {
            1nat
        } else {
            0nat
        }
    }
}

/// The chain is linear: `m` snapshots with a board give `m` commits; the first
/// has no parent and each other one has the commit just before it, which
/// records an earlier snapshot.
pub proof fn lemma_commit_chain_linear(snaps: Seq<SnapView>, description: Seq<char>)
    ensures
        plan_spec(snaps, description) matches Ok(p) ==> {
            &&& p.len() == count_with_board(snaps)
            &&& forall|i: int| 0 <= i < p.len() ==> #[trigger] p[i].parent == if i == 0 {
                None
            } else {
                Some(i - 1)
            }
            &&& forall|i: int| 0 < i < p.len() ==> p[i - 1].snapshot < #[trigger] p[i].snapshot
            &&& forall|i: int| 0 <= i < p.len() ==> 0 <= #[trigger] p[i].snapshot < snaps.len()
        },
    decreases snaps.len(),
{
    if snaps.len() > 0 {
        lemma_commit_chain_linear(snaps.drop_last(), description);
    }
}

} // verus!
