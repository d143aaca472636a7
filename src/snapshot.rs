//! Walking the change events from newest to oldest and recording the boards
//! as they were before each one.
use vstd::prelude::*;
use crate::card::{cards_view, copy_board, BoardChanges, Card, CardView, ChangesView};
use crate::migration::MigrationMap;
use crate::revert::{outcome, revert_changelog, revert_spec, MigrationTable, RevertError};

verus! {

/// One change event: when it happened, if known, and what it did to each board.
pub struct ChangeEvent {
    pub date: Option<i64>,
    pub mainboard: BoardChanges,
    pub maybeboard: BoardChanges,
}

pub struct EventView {
    pub date: Option<i64>,
    pub mainboard: ChangesView,
    pub maybeboard: ChangesView,
}

impl View for ChangeEvent {
    type V = EventView;

    open spec fn view(&self) -> EventView {
        EventView { date: self.date, mainboard: self.mainboard@, maybeboard: self.maybeboard@ }
    }
}

impl EventView {
    pub open spec fn touches(self) -> bool {
        self.mainboard.touches() || self.maybeboard.touches()
    }
}

/// The boards at one point in time; a board is present only where it changed
/// there.
pub struct CobraCubeSnapshot {
    pub timestamp: i64,
    pub main: Option<Vec<Card>>,
    pub mayb: Option<Vec<Card>>,
}

pub struct SnapView {
    pub timestamp: i64,
    pub main: Option<Seq<CardView>>,
    pub mayb: Option<Seq<CardView>>,
}

pub open spec fn opt_board_view(b: Option<Vec<Card>>) -> Option<Seq<CardView>> {
    match b {
        Some(v) => Some(cards_view(v@)),
        None => None,
    }
}

impl View for CobraCubeSnapshot {
    type V = SnapView;

    open spec fn view(&self) -> SnapView {
        SnapView {
            timestamp: self.timestamp,
            main: opt_board_view(self.main),
            mayb: opt_board_view(self.mayb),
        }
    }
}

pub open spec fn snaps_view(s: Seq<CobraCubeSnapshot>) -> Seq<SnapView> {
    s.map_values(|x: CobraCubeSnapshot| x@)
}

pub open spec fn events_view(s: Seq<ChangeEvent>) -> Seq<EventView> {
    s.map_values(|e: ChangeEvent| e@)
}

/// The working boards and the snapshots emitted so far, newest first.
pub struct WalkState {
    pub main: Seq<CardView>,
    pub mayb: Seq<CardView>,
    pub snaps: Seq<SnapView>,
}

/// One time unit before `t`, where there is one.
pub open spec fn one_before(t: i64) -> i64 {
    if t > i64::MIN {
        (t - 1) as i64
    } else {
        t
    }
}

/// The time of a snapshot for event `e`, after a snapshot at time `prev`.
pub open spec fn event_time(e: EventView, prev: i64) -> i64 {
    match e.date {
        Some(d) => d,
        None => one_before(prev),
    }
}

/// A board before an event: reverted where the event touched it.
pub open spec fn board_before(b: Seq<CardView>, c: ChangesView, m: MigrationTable) -> Result<
    Seq<CardView>,
    RevertError,
> {
    if c.touches() {
        revert_spec(b, c, m)
    } else {
        Ok(b)
    }
}

pub open spec fn walk_step(st: WalkState, e: EventView, m: MigrationTable) -> Result<
    WalkState,
    RevertError,
> {
    match board_before(st.main, e.mainboard, m) {
        Err(err) => Err(err),
        Ok(main) => match board_before(st.mayb, e.maybeboard, m) {
            Err(err) => Err(err),
            Ok(mayb) => if e.touches() {
                Ok(
                    WalkState {
                        main,
                        mayb,
                        snaps: st.snaps.push(
                            SnapView {
                                timestamp: event_time(e, st.snaps.last().timestamp),
                                main: if e.mainboard.touches() {
                                    Some(main)
                                } else {
                                    None
                                },
                                mayb: if e.maybeboard.touches() {
                                    Some(mayb)
                                } else {
                                    None
                                },
                            },
                        ),
                    },
                )
            } else {
                Ok(WalkState { main, mayb, snaps: st.snaps })
            },
        },
    }
}

/// The state after walking `events` (newest first) from `start`.
pub open spec fn walk(start: WalkState, events: Seq<EventView>, m: MigrationTable) -> Result<
    WalkState,
    RevertError,
>
    decreases events.len(),
{
    if events.len() == 0 {
        Ok(start)
    } else {
        match walk(start, events.drop_last(), m) {
            Err(err) => Err(err),
            Ok(st) => walk_step(st, events.last(), m),
        }
    }
}

pub open spec fn start_state(main: Seq<CardView>, mayb: Seq<CardView>, now: i64) -> WalkState {
    WalkState {
        main,
        mayb,
        snaps: seq![SnapView { timestamp: now, main: Some(main), mayb: Some(mayb) }],
    }
}

/// The snapshots oldest first: the oldest made complete, then the list
/// reversed.
pub open spec fn finish(st: WalkState) -> Seq<SnapView> {
    st.snaps.drop_last().push(
        SnapView { timestamp: st.snaps.last().timestamp, main: Some(st.main), mayb: Some(st.mayb) },
    ).reverse()
}

/// The snapshot sequence for boards `main` and `mayb` at time `now` and the
/// events `events`, newest first.
pub open spec fn sequence_spec(
    main: Seq<CardView>,
    mayb: Seq<CardView>,
    events: Seq<EventView>,
    m: MigrationTable,
    now: i64,
) -> Result<Seq<SnapView>, RevertError> {
    match walk(start_state(main, mayb, now), events, m) {
        Err(err) => Err(err),
        Ok(st) => Ok(finish(st)),
    }
}

pub open spec fn snaps_outcome(
    r: Result<Vec<CobraCubeSnapshot>, RevertError>,
    expect: Result<Seq<SnapView>, RevertError>,
) -> bool {
    match expect {
        Ok(s) => r is Ok && snaps_view(r->Ok_0@) == s,
        Err(e) => r is Err && r->Err_0 == e,
    }
}

proof fn lemma_walk_err(start: WalkState, s: Seq<EventView>, m: MigrationTable, i: int)
    requires
        0 <= i <= s.len(),
        walk(start, s.subrange(0, i), m) is Err,
    ensures
        walk(start, s, m) == walk(start, s.subrange(0, i), m),
    decreases s.len() - i,
{
    if i < s.len() {
        assert(s.subrange(0, i + 1).drop_last() =~= s.subrange(0, i));
        lemma_walk_err(start, s, m, i + 1);
    } else {
        assert(s.subrange(0, i) =~= s);
    }
}

fn revert_if_touched(package: &mut Vec<Card>, changes: &BoardChanges, migrations: &MigrationMap) -> (r:
    Result<(), RevertError>)
    ensures
        outcome(
            r,
            cards_view(final(package)@),
            board_before(cards_view(old(package)@), changes@, migrations@),
        ),
{
    if changes.is_empty() {
        Ok(())
    } else {
        revert_changelog(package, changes, migrations)
    }
}

fn time_before(t: i64) -> (r: i64)
    ensures
        r == one_before(t),
{
    if t > i64::MIN {
        t - 1
    } else {
        t
    }
}

fn reversed(v: Vec<CobraCubeSnapshot>) -> (r: Vec<CobraCubeSnapshot>)
    ensures
        snaps_view(r@) == snaps_view(v@).reverse(),
{
    let ghost orig = snaps_view(v@);
    let mut v = v;
    let mut out: Vec<CobraCubeSnapshot> = Vec::new();
    while v.len() > 0
        invariant
            v@.len() <= orig.len(),
            snaps_view(v@) == orig.subrange(0, v@.len() as int),
            snaps_view(out@) == orig.subrange(v@.len() as int, orig.len() as int).reverse(),
        decreases v@.len(),
    {
        let ghost before = v@;
        let x = v.pop().unwrap();
        assert(snaps_view(v@) =~= orig.subrange(0, v@.len() as int));
        assert(snaps_view(before)[v@.len() as int] == x@);
        assert(x@ == orig[v@.len() as int]);
        let ghost old_out = out@;
        out.push(x);
        assert(snaps_view(out@) =~= snaps_view(old_out).push(x@));
        assert(snaps_view(out@) =~= orig.subrange(v@.len() as int, orig.len() as int).reverse());
    }
    assert(orig.subrange(0, orig.len() as int) =~= orig);
    out
}

/// Reverts `mainboard` and `maybeboard`, the boards as they stand at time
/// `now`, through `changes` (newest first), and returns the snapshots
/// oldest first. On success the boards are left in their oldest state, the
/// one the first snapshot holds.
pub fn snapshots_at(
    mainboard: &mut Vec<Card>,
    maybeboard: &mut Vec<Card>,
    changes: &Vec<ChangeEvent>,
    migrations: &MigrationMap,
    now: i64,
) -> (r: Result<Vec<CobraCubeSnapshot>, RevertError>)
    ensures
        snaps_outcome(
            r,
            sequence_spec(
                cards_view(old(mainboard)@),
                cards_view(old(maybeboard)@),
                events_view(changes@),
                migrations@,
                now,
            ),
        ),
        r matches Ok(v) ==> v@.len() > 0 && v@[0]@.main == Some(cards_view(final(mainboard)@))
            && v@[0]@.mayb == Some(cards_view(final(maybeboard)@)),
{
    let ghost start = start_state(cards_view(mainboard@), cards_view(maybeboard@), now);
    let ghost ev = events_view(changes@);
    let mut result: Vec<CobraCubeSnapshot> = Vec::new();
    result.push(
        CobraCubeSnapshot {
            timestamp: now,
            main: Some(copy_board(mainboard)),
            mayb: Some(copy_board(maybeboard)),
        },
    );
    assert(snaps_view(result@) =~= start.snaps);
    assert(ev.subrange(0, 0) =~= Seq::<EventView>::empty());
    let mut i: usize = 0;
    while i < changes.len()
        invariant
            i <= changes@.len(),
            ev == events_view(changes@),
            start == start_state(cards_view(old(mainboard)@), cards_view(old(maybeboard)@), now),
            result@.len() > 0,
            walk(start, ev.subrange(0, i as int), migrations@) == Ok::<WalkState, RevertError>(
                WalkState {
                    main: cards_view(mainboard@),
                    mayb: cards_view(maybeboard@),
                    snaps: snaps_view(result@),
                },
            ),
        decreases changes@.len() - i,
    {
        let change = &changes[i];
        assert(ev.subrange(0, i + 1).drop_last() =~= ev.subrange(0, i as int));
        assert(ev.subrange(0, i + 1).last() == change@);
        let ghost st = WalkState {
            main: cards_view(mainboard@),
            mayb: cards_view(maybeboard@),
            snaps: snaps_view(result@),
        };
        match revert_if_touched(mainboard, &change.mainboard, migrations) {
            Ok(()) => {},
            Err(e) => {
                proof {
                    lemma_walk_err(start, ev, migrations@, i + 1);
                }
                return Err(e);
            },
        }
        match revert_if_touched(maybeboard, &change.maybeboard, migrations) {
            Ok(()) => {},
            Err(e) => {
                proof {
                    lemma_walk_err(start, ev, migrations@, i + 1);
                }
                return Err(e);
            },
        }
        let main_touched = !change.mainboard.is_empty();
        let mayb_touched = !change.maybeboard.is_empty();
        if main_touched || mayb_touched {
            let prev = result[result.len() - 1].timestamp;
            let timestamp = match change.date {
                Some(d) => d,
                None => time_before(prev),
            };
            let main = if main_touched {
                Some(copy_board(mainboard))
            } else {
                None
            };
            let mayb = if mayb_touched {
                Some(copy_board(maybeboard))
            } else {
                None
            };
            let ghost before = result@;
            result.push(CobraCubeSnapshot { timestamp, main, mayb });
            assert(snaps_view(result@) =~= snaps_view(before).push(result@.last()@));
        }
        i = i + 1;
    }
    assert(ev.subrange(0, i as int) =~= ev);
    let ghost walked = result@;
    let last = result.pop().unwrap();
    let ghost before = result@;
    assert(snaps_view(before) =~= snaps_view(walked).drop_last());
    assert(last@ == snaps_view(walked).last());
    result.push(
        CobraCubeSnapshot {
            timestamp: last.timestamp,
            main: Some(copy_board(mainboard)),
            mayb: Some(copy_board(maybeboard)),
        },
    );
    assert(snaps_view(result@) =~= snaps_view(before).push(result@.last()@));
    assert(snaps_view(result@).reverse() =~= finish(
        WalkState {
            main: cards_view(mainboard@),
            mayb: cards_view(maybeboard@),
            snaps: snaps_view(walked),
        },
    ));
    let out = reversed(result);
    assert(out@[0]@ == snaps_view(out@)[0]);
    Ok(out)
}

/// Relies on chrono::Utc::now: the current time, in milliseconds since the
/// epoch. Nothing is promised of its value.
#[verifier::external_body]
fn now_millis() -> (r: i64) {
    chrono::Utc::now().timestamp_millis()
}

/// Reverts `mainboard` and `maybeboard`, as they stand now, through `changes`
/// (newest first), and returns the snapshots oldest first; the newest is
/// tagged with the current time.
pub fn generate_cubecobra_snapshots(
    mainboard: &mut Vec<Card>,
    maybeboard: &mut Vec<Card>,
    changes: &Vec<ChangeEvent>,
    migrations: &MigrationMap,
) -> (r: Result<Vec<CobraCubeSnapshot>, RevertError>)
    ensures
        exists|now: i64|
            snaps_outcome(
                r,
                #[trigger] sequence_spec(
                    cards_view(old(mainboard)@),
                    cards_view(old(maybeboard)@),
                    events_view(changes@),
                    migrations@,
                    now,
                ),
            ),
        r matches Ok(v) ==> v@.len() > 0 && v@[0]@.main == Some(cards_view(final(mainboard)@))
            && v@[0]@.mayb == Some(cards_view(final(maybeboard)@)),
{
    let now = now_millis();
    snapshots_at(mainboard, maybeboard, changes, migrations, now)
}

/// How many of `events` change at least one board.
pub open spec fn count_touching(events: Seq<EventView>) -> nat
    decreases events.len(),
{
    if events.len() == 0 {
        0
    } else {
        count_touching(events.drop_last()) + if events.last().touches() {
            1nat
        } else {
            0nat
        }
    }
}

proof fn lemma_walk_shape(start: WalkState, events: Seq<EventView>, m: MigrationTable)
    requires
        start.snaps.len() == 1,
    ensures
        walk(start, events, m) matches Ok(st) ==> st.snaps.len() == 1 + count_touching(events)
            && st.snaps[0] == start.snaps[0],
    decreases events.len(),
{
    if events.len() > 0 {
        lemma_walk_shape(start, events.drop_last(), m);
    }
}

/// Every event that changes a board gives one snapshot, and the present state
/// one more: `k` such events give `k + 1` snapshots.
pub proof fn lemma_snapshot_count(
    main: Seq<CardView>,
    mayb: Seq<CardView>,
    events: Seq<EventView>,
    m: MigrationTable,
    now: i64,
)
    ensures
        sequence_spec(main, mayb, events, m, now) matches Ok(s) ==> s.len() == count_touching(
            events,
        ) + 1,
{
    lemma_walk_shape(start_state(main, mayb, now), events, m);
}

/// The first snapshot, oldest, which seeds the root commit, and the last, the
/// present state, both hold both boards.
pub proof fn lemma_root_complete(
    main: Seq<CardView>,
    mayb: Seq<CardView>,
    events: Seq<EventView>,
    m: MigrationTable,
    now: i64,
)
    ensures
        sequence_spec(main, mayb, events, m, now) matches Ok(s) ==> s.len() > 0 && s[0].main is Some
            && s[0].mayb is Some && s.last().main is Some && s.last().mayb is Some,
{
    lemma_walk_shape(start_state(main, mayb, now), events, m);
    if let Ok(st) = walk(start_state(main, mayb, now), events, m) {
        let s = finish(st);
        let n = st.snaps.len();
        assert(s[0] == st.snaps.drop_last().push(
            SnapView { timestamp: st.snaps.last().timestamp, main: Some(st.main), mayb: Some(st.mayb) },
        )[n - 1]);
        assert(s.last() == st.snaps.drop_last().push(
            SnapView { timestamp: st.snaps.last().timestamp, main: Some(st.main), mayb: Some(st.mayb) },
        )[0]);
    }
}

} // verus!
