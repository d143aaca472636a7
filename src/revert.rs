//! Undoing one change event on one board.
use vstd::prelude::*;
use crate::card::{
    adds_view, cards_view, copy_board, AddOp, ReplaceOp, removes_view, replaces_view, BoardChanges, Card, CardView, ChangesView, RemoveOp,
};
use crate::migration::{resolve, resolve_spec, MigrationMap};

verus! {

/// Why a change event could not be undone: the recorded history disagrees
/// with the board being replayed.
#[derive(PartialEq, Eq, Structural, Debug, Clone, Copy)]
pub enum RevertError {
    /// No card of the board matches an added card.
    AddNotFound,
    /// No card of the board matches the new card of an edit.
    EditNotFound,
    /// No card of the board matches the new card of a swap.
    SwapNotFound,
    /// A recorded index lies outside the board.
    IndexOutOfRange,
}

pub type MigrationTable = Map<Seq<char>, (Seq<char>, Seq<char>)>;

/// The highest index whose card has identity `id`.
pub open spec fn last_id_match(b: Seq<CardView>, id: Seq<char>) -> Option<int>
    decreases b.len(),
{
    if b.len() == 0 {
        None
    } else if b.last().card_id == id {
        Some(b.len() - 1)
    } else {
        last_id_match(b.drop_last(), id)
    }
}

/// The highest index whose card has display name `name`.
pub open spec fn last_name_match(b: Seq<CardView>, name: Seq<char>) -> Option<int>
    decreases b.len(),
{
    if b.len() == 0 {
        None
    } else if b.last().name == name {
        Some(b.len() - 1)
    } else {
        last_name_match(b.drop_last(), name)
    }
}

/// Where a card of canonical identity `key` stands: the last card with that
/// identity, or failing that the last card with that name.
pub open spec fn locate_spec(b: Seq<CardView>, key: (Seq<char>, Seq<char>)) -> Option<int> {
    match last_id_match(b, key.0) {
        Some(i) => Some(i),
        None => last_name_match(b, key.1),
    }
}

pub open spec fn canonical_key(c: CardView, m: MigrationTable) -> (Seq<char>, Seq<char>) {
    resolve_spec(c.card_id, c.name, m)
}

/// Undoes the adds, in their order: each removes the card that the lookup of
/// its canonical identity finds.
pub open spec fn undo_adds(b: Seq<CardView>, adds: Seq<CardView>, m: MigrationTable) -> Result<
    Seq<CardView>,
    RevertError,
>
    decreases adds.len(),
{
    if adds.len() == 0 {
        Ok(b)
    } else {
        match undo_adds(b, adds.drop_last(), m) {
            Err(e) => Err(e),
            Ok(b1) => match locate_spec(b1, canonical_key(adds.last(), m)) {
                Some(i) => Ok(b1.remove(i)),
                None => Err(RevertError::AddNotFound),
            },
        }
    }
}

/// The order in which removals are undone: by recorded index, an absent index
/// counting as zero.
pub open spec fn remove_key(r: (Option<i32>, CardView)) -> int {
    match r.0 {
        Some(i) => i as int,
        None => 0,
    }
}

/// Where a record of key `k` goes in the sorted `s`: after every record whose
/// key is not greater.
pub open spec fn sorted_slot(s: Seq<(Option<i32>, CardView)>, k: int) -> int
    decreases s.len(),
{
    if s.len() == 0 {
        0
    } else if remove_key(s.last()) <= k {
        s.len() as int
    } else {
        sorted_slot(s.drop_last(), k)
    }
}

/// The removal records in ascending order of index; records of equal index
/// keep their order.
pub open spec fn sort_removes(s: Seq<(Option<i32>, CardView)>) -> Seq<(Option<i32>, CardView)>
    decreases s.len(),
{
    if s.len() == 0 {
        s
    } else {
        let r = sort_removes(s.drop_last());
        r.insert(sorted_slot(r, remove_key(s.last())), s.last())
    }
}

/// Puts back one removed card: at its recorded index, or at the end where it
/// has none.
pub open spec fn reinsert_one(b: Seq<CardView>, r: (Option<i32>, CardView)) -> Result<
    Seq<CardView>,
    RevertError,
> {
    match r.0 {
        Some(i) => if 0 <= i <= b.len() {
            Ok(b.insert(i as int, r.1))
        } else {
            Err(RevertError::IndexOutOfRange)
        },
        None => Ok(b.push(r.1)),
    }
}

/// Puts back the removed cards, in the order given: each at its recorded
/// index, or at the end where it has none.
pub open spec fn reinsert(b: Seq<CardView>, s: Seq<(Option<i32>, CardView)>) -> Result<
    Seq<CardView>,
    RevertError,
>
    decreases s.len(),
{
    if s.len() == 0 {
        Ok(b)
    } else {
        match reinsert(b, s.drop_last()) {
            Err(e) => Err(e),
            Ok(b1) => reinsert_one(b1, s.last()),
        }
    }
}

/// Puts back the old card of each edit or swap, in their order: at its
/// recorded index, or where the lookup of the new card's canonical identity
/// finds it; `miss` is the error where the lookup finds nothing.
pub open spec fn undo_replaces(
    b: Seq<CardView>,
    s: Seq<(Option<i32>, CardView, CardView)>,
    m: MigrationTable,
    miss: RevertError,
) -> Result<Seq<CardView>, RevertError>
    decreases s.len(),
{
    if s.len() == 0 {
        Ok(b)
    } else {
        match undo_replaces(b, s.drop_last(), m, miss) {
            Err(e) => Err(e),
            Ok(b1) => {
                let op = s.last();
                match op.0 {
                    Some(i) => if 0 <= i < b1.len() {
                        Ok(b1.update(i as int, op.1))
                    } else {
                        Err(RevertError::IndexOutOfRange)
                    },
                    None => match locate_spec(b1, canonical_key(op.2, m)) {
                        Some(j) => Ok(b1.update(j, op.1)),
                        None => Err(miss),
                    },
                }
            },
        }
    }
}

/// The board before an event, from the board after it: adds, then removes,
/// then edits, then swaps are undone.
pub open spec fn revert_spec(b: Seq<CardView>, c: ChangesView, m: MigrationTable) -> Result<
    Seq<CardView>,
    RevertError,
> {
    match undo_adds(b, c.adds, m) {
        Err(e) => Err(e),
        Ok(b1) => match reinsert(b1, sort_removes(c.removes)) {
            Err(e) => Err(e),
            Ok(b2) => match undo_replaces(b2, c.edits, m, RevertError::EditNotFound) {
                Err(e) => Err(e),
                Ok(b3) => undo_replaces(b3, c.swaps, m, RevertError::SwapNotFound),
            },
        },
    }
}

/// The identity lookup finds a card wherever one has the identity, and the
/// card it finds is the last of them.
pub(crate) proof fn lemma_last_id_match_found(b: Seq<CardView>, id: Seq<char>)
    ensures
        (exists|i: int| 0 <= i < b.len() && #[trigger] b[i].card_id == id) ==> last_id_match(b, id)
            is Some,
        last_id_match(b, id) matches Some(i) ==> 0 <= i < b.len() && b[i].card_id == id && forall|
            q: int,
        |
            i < q < b.len() ==> #[trigger] b[q].card_id != id,
    decreases b.len(),
{
    if b.len() > 0 {
        lemma_last_id_match_found(b.drop_last(), id);
        if exists|i: int| 0 <= i < b.len() && #[trigger] b[i].card_id == id {
            let i = choose|i: int| 0 <= i < b.len() && #[trigger] b[i].card_id == id;
            if i < b.len() - 1 {
                assert(b.drop_last()[i].card_id == id);
            }
        }
        if b.last().card_id != id {
            if let Some(i) = last_id_match(b, id) {
                assert forall|q: int| i < q < b.len() implies #[trigger] b[q].card_id != id by {
                    if q < b.len() - 1 {
                        assert(b.drop_last()[q] == b[q]);
                    }
                }
            }
        }
    }
}

/// A lookup matches on canonical identity before it falls back to the name:
/// where some card of the board has the canonical identity, the card found is
/// the last such card, whatever the names of the others.
pub proof fn lemma_identity_precedence(b: Seq<CardView>, key: (Seq<char>, Seq<char>))
    requires
        exists|i: int| 0 <= i < b.len() && #[trigger] b[i].card_id == key.0,
    ensures
        locate_spec(b, key) matches Some(i) && 0 <= i < b.len() && b[i].card_id == key.0 && forall|
            q: int,
        |
            i < q < b.len() ==> #[trigger] b[q].card_id != key.0,
{
    lemma_last_id_match_found(b, key.0);
}

/// Finds the card that a canonical (identity, name) pair designates: the last
/// card of that identity, else the last card of that name.
pub fn locate(board: &Vec<Card>, id: &String, name: &String) -> (r: Option<usize>)
    ensures
        r matches Some(i) ==> i < board@.len() && locate_spec(cards_view(board@), (id@, name@))
            == Some(i as int),
        r is None ==> locate_spec(cards_view(board@), (id@, name@)) is None,
{
    let ghost v = cards_view(board@);
    let n = board.len();
    let mut j: usize = n;
    assert(v.subrange(0, n as int) =~= v);
    while j > 0
        invariant
            j <= n,
            n == board@.len(),
            v == cards_view(board@),
            last_id_match(v.subrange(0, j as int), id@) == last_id_match(v, id@),
        decreases j,
    {
        assert(v.subrange(0, j as int).drop_last() =~= v.subrange(0, j - 1));
        if board[j - 1].card_id == *id {
            return Some(j - 1);
        }
        j = j - 1;
    }
    assert(v.subrange(0, 0) =~= Seq::<CardView>::empty());
    j = n;
    while j > 0
        invariant
            j <= n,
            n == board@.len(),
            v == cards_view(board@),
            last_id_match(v, id@) is None,
            last_name_match(v.subrange(0, j as int), name@) == last_name_match(v, name@),
        decreases j,
    {
        assert(v.subrange(0, j as int).drop_last() =~= v.subrange(0, j - 1));
        if board[j - 1].name == *name {
            return Some(j - 1);
        }
        j = j - 1;
    }
    None
}

fn sort_key(op: &RemoveOp) -> (k: i64)
    ensures
        k == remove_key((op.index, op.old_card@)),
{
    match op.index {
        Some(x) => x as i64,
        None => 0,
    }
}

/// The removal records in ascending order of index, stably.
pub fn sorted_removes(removes: &Vec<RemoveOp>) -> (r: Vec<RemoveOp>)
    ensures
        removes_view(r@) == sort_removes(removes_view(removes@)),
{
    let mut res: Vec<RemoveOp> = Vec::new();
    let mut i: usize = 0;
    while i < removes.len()
        invariant
            i <= removes@.len(),
            removes_view(res@) == sort_removes(removes_view(removes@.subrange(0, i as int))),
        decreases removes@.len() - i,
    {
        let op = &removes[i];
        let k = sort_key(op);
        let ghost rv = removes_view(res@);
        let mut p: usize = res.len();
        assert(rv.subrange(0, p as int) =~= rv);
        while p > 0 && sort_key(&res[p - 1]) > k
            invariant
                p <= res@.len(),
                rv == removes_view(res@),
                sorted_slot(rv.subrange(0, p as int), k as int) == sorted_slot(rv, k as int),
            decreases p,
        {
            assert(rv.subrange(0, p as int).drop_last() =~= rv.subrange(0, p - 1));
            p = p - 1;
        }
        assert(rv.subrange(0, 0) =~= Seq::<(Option<i32>, CardView)>::empty());
        assert(sorted_slot(rv, k as int) == p);
        res.insert(p, RemoveOp { index: op.index, old_card: op.old_card.duplicate() });
        proof {
            let s = removes_view(removes@.subrange(0, i + 1));
            assert(s.drop_last() =~= removes_view(removes@.subrange(0, i as int)));
            assert(removes_view(res@) =~= rv.insert(p as int, s.last()));
        }
        i = i + 1;
    }
    assert(removes@.subrange(0, i as int) =~= removes@);
    res
}

/// `r` and the board `after` are what `expect` describes.
pub open spec fn outcome(
    r: Result<(), RevertError>,
    after: Seq<CardView>,
    expect: Result<Seq<CardView>, RevertError>,
) -> bool {
    match expect {
        Ok(b) => r is Ok && after == b,
        Err(e) => r == Err::<(), RevertError>(e),
    }
}

proof fn lemma_undo_adds_err(b: Seq<CardView>, s: Seq<CardView>, m: MigrationTable, i: int)
    requires
        0 <= i <= s.len(),
        undo_adds(b, s.subrange(0, i), m) is Err,
    ensures
        undo_adds(b, s, m) == undo_adds(b, s.subrange(0, i), m),
    decreases s.len() - i,
{
    if i < s.len() {
        assert(s.subrange(0, i + 1).drop_last() =~= s.subrange(0, i));
        lemma_undo_adds_err(b, s, m, i + 1);
    } else {
        assert(s.subrange(0, i) =~= s);
    }
}

proof fn lemma_reinsert_err(b: Seq<CardView>, s: Seq<(Option<i32>, CardView)>, i: int)
    requires
        0 <= i <= s.len(),
        reinsert(b, s.subrange(0, i)) is Err,
    ensures
        reinsert(b, s) == reinsert(b, s.subrange(0, i)),
    decreases s.len() - i,
{
    if i < s.len() {
        assert(s.subrange(0, i + 1).drop_last() =~= s.subrange(0, i));
        lemma_reinsert_err(b, s, i + 1);
    } else {
        assert(s.subrange(0, i) =~= s);
    }
}

proof fn lemma_undo_replaces_err(
    b: Seq<CardView>,
    s: Seq<(Option<i32>, CardView, CardView)>,
    m: MigrationTable,
    miss: RevertError,
    i: int,
)
    requires
        0 <= i <= s.len(),
        undo_replaces(b, s.subrange(0, i), m, miss) is Err,
    ensures
        undo_replaces(b, s, m, miss) == undo_replaces(b, s.subrange(0, i), m, miss),
    decreases s.len() - i,
{
    if i < s.len() {
        assert(s.subrange(0, i + 1).drop_last() =~= s.subrange(0, i));
        lemma_undo_replaces_err(b, s, m, miss, i + 1);
    } else {
        assert(s.subrange(0, i) =~= s);
    }
}

fn revert_adds(package: &mut Vec<Card>, adds: &Vec<AddOp>, migrations: &MigrationMap) -> (r:
    Result<(), RevertError>)
    ensures
        outcome(
            r,
            cards_view(final(package)@),
            undo_adds(cards_view(old(package)@), adds_view(adds@), migrations@),
        ),
{
    let ghost b0 = cards_view(package@);
    let ghost av = adds_view(adds@);
    let mut i: usize = 0;
    assert(av.subrange(0, 0) =~= Seq::<CardView>::empty());
    while i < adds.len()
        invariant
            i <= adds@.len(),
            av == adds_view(adds@),
            b0 == cards_view(old(package)@),
            undo_adds(b0, av.subrange(0, i as int), migrations@) == Ok::<
                Seq<CardView>,
                RevertError,
            >(cards_view(package@)),
        decreases adds@.len() - i,
    {
        let card = &adds[i].card;
        assert(av.subrange(0, i + 1).drop_last() =~= av.subrange(0, i as int));
        let (id, name) = resolve(&card.card_id, &card.name, migrations);
        match locate(package, &id, &name) {
            Some(j) => {
                let ghost before = package@;
                package.remove(j);
                assert(cards_view(package@) =~= cards_view(before).remove(j as int));
            },
            None => {
                proof {
                    lemma_undo_adds_err(b0, av, migrations@, i + 1);
                }
                return Err(RevertError::AddNotFound);
            },
        }
        i = i + 1;
    }
    assert(av.subrange(0, i as int) =~= av);
    Ok(())
}

fn revert_removes(package: &mut Vec<Card>, removes: &Vec<RemoveOp>) -> (r: Result<(), RevertError>)
    ensures
        outcome(
            r,
            cards_view(final(package)@),
            reinsert(cards_view(old(package)@), sort_removes(removes_view(removes@))),
        ),
{
    let sorted = sorted_removes(removes);
    let ghost b0 = cards_view(package@);
    let ghost sv = removes_view(sorted@);
    let mut i: usize = 0;
    assert(sv.subrange(0, 0) =~= Seq::<(Option<i32>, CardView)>::empty());
    while i < sorted.len()
        invariant
            i <= sorted@.len(),
            sv == removes_view(sorted@),
            sv == sort_removes(removes_view(removes@)),
            b0 == cards_view(old(package)@),
            reinsert(b0, sv.subrange(0, i as int)) == Ok::<Seq<CardView>, RevertError>(
                cards_view(package@),
            ),
        decreases sorted@.len() - i,
    {
        let op = &sorted[i];
        assert(sv.subrange(0, i + 1).drop_last() =~= sv.subrange(0, i as int));
        assert(sv.subrange(0, i + 1).last() == (op.index, op.old_card@));
        let ghost before = package@;
        match op.index {
            Some(x) => {
                if x < 0 || x as usize > package.len() {
                    proof {
                        assert(reinsert(b0, sv.subrange(0, i + 1)) == Err::<
                            Seq<CardView>,
                            RevertError,
                        >(RevertError::IndexOutOfRange));
                        lemma_reinsert_err(b0, sv, i + 1);
                    }
                    return Err(RevertError::IndexOutOfRange);
                }
                package.insert(x as usize, op.old_card.duplicate());
                assert(cards_view(package@) =~= cards_view(before).insert(x as int, op.old_card@));
            },
            None => {
                package.push(op.old_card.duplicate());
                assert(cards_view(package@) =~= cards_view(before).push(op.old_card@));
            },
        }
        i = i + 1;
    }
    assert(sv.subrange(0, i as int) =~= sv);
    Ok(())
}

fn revert_replaces(
    package: &mut Vec<Card>,
    ops: &Vec<ReplaceOp>,
    migrations: &MigrationMap,
    miss: RevertError,
) -> (r: Result<(), RevertError>)
    ensures
        outcome(
            r,
            cards_view(final(package)@),
            undo_replaces(cards_view(old(package)@), replaces_view(ops@), migrations@, miss),
        ),
{
    let ghost b0 = cards_view(package@);
    let ghost ov = replaces_view(ops@);
    let mut i: usize = 0;
    assert(ov.subrange(0, 0) =~= Seq::<(Option<i32>, CardView, CardView)>::empty());
    while i < ops.len()
        invariant
            i <= ops@.len(),
            ov == replaces_view(ops@),
            b0 == cards_view(old(package)@),
            undo_replaces(b0, ov.subrange(0, i as int), migrations@, miss) == Ok::<
                Seq<CardView>,
                RevertError,
            >(cards_view(package@)),
        decreases ops@.len() - i,
    {
        let op = &ops[i];
        assert(ov.subrange(0, i + 1).drop_last() =~= ov.subrange(0, i as int));
        let ghost before = package@;
        let at: usize = match op.index {
            Some(x) => {
                if x < 0 || x as usize >= package.len() {
                    proof {
                        lemma_undo_replaces_err(b0, ov, migrations@, miss, i + 1);
                    }
                    return Err(RevertError::IndexOutOfRange);
                }
                x as usize
            },
            None => {
                let (id, name) = resolve(&op.new_card.card_id, &op.new_card.name, migrations);
                match locate(package, &id, &name) {
                    Some(j) => j,
                    None => {
                        proof {
                            lemma_undo_replaces_err(b0, ov, migrations@, miss, i + 1);
                        }
                        return Err(miss);
                    },
                }
            },
        };
        package.set(at, op.old_card.duplicate());
        assert(cards_view(package@) =~= cards_view(before).update(at as int, op.old_card@));
        i = i + 1;
    }
    assert(ov.subrange(0, i as int) =~= ov);
    Ok(())
}

/// Changes `package` from the board after an event to the board before it.
/// Where the recorded operations do not fit the board the error says which
/// lookup failed, and the board is left as it was.
pub fn revert_changelog(
    package: &mut Vec<Card>,
    changes: &BoardChanges,
    migrations: &MigrationMap,
) -> (r: Result<(), RevertError>)
    ensures
        outcome(
            r,
            cards_view(final(package)@),
            revert_spec(cards_view(old(package)@), changes@, migrations@),
        ),
        r is Err ==> cards_view(final(package)@) == cards_view(old(package)@),
{
    let mut work = copy_board(package);
    revert_adds(&mut work, &changes.adds, migrations)?;
    revert_removes(&mut work, &changes.removes)?;
    revert_replaces(&mut work, &changes.edits, migrations, RevertError::EditNotFound)?;
    revert_replaces(&mut work, &changes.swaps, migrations, RevertError::SwapNotFound)?;
    *package = work;
    Ok(())
}

} // verus!
