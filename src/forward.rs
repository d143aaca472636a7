//! Applying a change event forward, and the law that undoing it restores the
//! board.
use vstd::prelude::*;
use crate::card::{
    adds_view, cards_view, copy_opt_str, opt_str_view, removes_view, replaces_view, BoardChanges, Card, CardView,
    ChangesView, ReplaceOp,
};
use crate::revert::{
    canonical_key, last_id_match, lemma_last_id_match_found, locate_spec, reinsert, reinsert_one, revert_spec, sort_removes,
    sorted_removes, undo_adds, undo_replaces, MigrationTable, RevertError,
};

verus! {

pub open spec fn index_of(o: Option<i32>) -> int {
    match o {
        Some(i) => i as int,
        None => -1,
    }
}

/// Each edit or swap, in order, puts its new card at its index.
pub open spec fn apply_replaces(b: Seq<CardView>, s: Seq<(Option<i32>, CardView, CardView)>) -> Seq<
    CardView,
>
    decreases s.len(),
{
    if s.len() == 0 {
        b
    } else {
        let b1 = apply_replaces(b, s.drop_last());
        let i = index_of(s.last().0);
        if 0 <= i < b1.len() {
            b1.update(i, s.last().2)
        } else {
            b1
        }
    }
}

/// Removes the cards at the indices of `s`, sorted ascending, from the
/// highest index down.
pub open spec fn remove_sorted(b: Seq<CardView>, s: Seq<(Option<i32>, CardView)>) -> Seq<CardView>
    decreases s.len(),
{
    if s.len() == 0 {
        b
    } else {
        let b1 = remove_sorted(b, s.drop_first());
        let i = index_of(s[0].0);
        if 0 <= i < b1.len() {
            b1.remove(i)
        } else {
            b1
        }
    }
}

/// The added cards as they enter a board of `base` cards: with the
/// collection's default status, and their index there as position.
pub open spec fn stamp_adds(a: Seq<CardView>, status: Option<Seq<char>>, base: int) -> Seq<
    CardView,
> {
    Seq::new(
        a.len(),
        |t: int| CardView { status: status, position: Some((base + t) as i32), ..a[t] },
    )
}

/// The board after an event, from the board before it: swaps, then edits,
/// then removes (highest index first), then adds at the end, stamped with
/// the default status `status`.
pub open spec fn apply_spec(b: Seq<CardView>, c: ChangesView, status: Option<Seq<char>>) -> Seq<
    CardView,
> {
    let b1 = apply_replaces(b, c.swaps);
    let b2 = apply_replaces(b1, c.edits);
    let b3 = remove_sorted(b2, sort_removes(c.removes));
    b3 + stamp_adds(c.adds, status, b3.len() as int)
}

/// Every index of an operation set lies inside the board it applies to, and
/// the removal indices are distinct.
pub open spec fn applicable(b: Seq<CardView>, c: ChangesView) -> bool {
    let rs = sort_removes(c.removes);
    &&& forall|j: int| 0 <= j < c.swaps.len() ==> 0 <= #[trigger] index_of(c.swaps[j].0) < b.len()
    &&& forall|j: int| 0 <= j < c.edits.len() ==> 0 <= #[trigger] index_of(c.edits[j].0) < b.len()
    &&& forall|j: int| 0 <= j < rs.len() ==> 0 <= #[trigger] index_of(rs[j].0) < b.len()
    &&& forall|j: int, k: int|
        0 <= j < k < rs.len() ==> index_of(#[trigger] rs[j].0) < index_of(#[trigger] rs[k].0)
}

/// Edits or swaps that name indices of `b`, each recording the card that
/// stood there.
pub open spec fn replaces_fit(b: Seq<CardView>, s: Seq<(Option<i32>, CardView, CardView)>) -> bool {
    &&& forall|j: int| 0 <= j < s.len() ==> 0 <= #[trigger] index_of(s[j].0) < b.len()
    &&& forall|j: int| 0 <= j < s.len() ==> s[j].1 == b[index_of(#[trigger] s[j].0)]
}

/// Removal records, sorted, that name strictly ascending indices of `b`, each
/// recording the card that stood there.
pub open spec fn removes_fit(b: Seq<CardView>, s: Seq<(Option<i32>, CardView)>) -> bool {
    &&& forall|j: int| 0 <= j < s.len() ==> 0 <= #[trigger] index_of(s[j].0) < b.len()
    &&& forall|j: int| 0 <= j < s.len() ==> s[j].1 == b[index_of(#[trigger] s[j].0)]
    &&& forall|j: int, k: int|
        0 <= j < k < s.len() ==> index_of(#[trigger] s[j].0) < index_of(#[trigger] s[k].0)
}

/// Added cards whose identity is their own canonical identity.
pub open spec fn adds_fit(a: Seq<CardView>, m: MigrationTable) -> bool {
    forall|j: int| 0 <= j < a.len() ==> (#[trigger] canonical_key(a[j], m)).0 == a[j].card_id
}

/// Adds `a`, which entered board `b` as the cards `a2`, where undoing each in
/// turn finds the card it added: the lookup of its canonical identity lands on
/// the first added card still on the board.
pub open spec fn adds_land(b: Seq<CardView>, a: Seq<CardView>, a2: Seq<CardView>, m: MigrationTable) -> bool {
    &&& a2.len() == a.len()
    &&& forall|k: int|
        0 <= k < a.len() ==> #[trigger] locate_spec(
            b + a2.subrange(k, a2.len() as int),
            canonical_key(a[k], m),
        ) == Some(b.len() as int)
}

/// How many cards of `s` have identity `id`.
pub open spec fn id_count(s: Seq<CardView>, id: Seq<char>) -> nat
    decreases s.len(),
{
    if s.len() == 0 {
        0
    } else {
        id_count(s.drop_last(), id) + if s.last().card_id == id {
            1nat
        } else {
            0nat
        }
    }
}

proof fn lemma_id_count_found(s: Seq<CardView>, id: Seq<char>)
    requires
        id_count(s, id) > 0,
    ensures
        exists|q: int| 0 <= q < s.len() && #[trigger] s[q].card_id == id,
    decreases s.len(),
{
    if s.last().card_id != id {
        lemma_id_count_found(s.drop_last(), id);
        let q = choose|q: int| 0 <= q < s.drop_last().len() && #[trigger] s.drop_last()[q].card_id == id;
        assert(s[q].card_id == id);
    } else {
        assert(s[s.len() - 1].card_id == id);
    }
}

proof fn lemma_id_count_remove(s: Seq<CardView>, i: int, id: Seq<char>)
    requires
        0 <= i < s.len(),
    ensures
        id_count(s.remove(i), id) + (if s[i].card_id == id {
            1int
        } else {
            0int
        }) == id_count(s, id),
    decreases s.len(),
{
    if i == s.len() - 1 {
        assert(s.remove(i) =~= s.drop_last());
    } else {
        lemma_id_count_remove(s.drop_last(), i, id);
        assert(s.remove(i).drop_last() =~= s.drop_last().remove(i));
        assert(s.remove(i).last() == s.last());
    }
}

/// An operation set that was recorded against board `b`, where added cards
/// enter with default status `status`: each phase fits the board that the
/// phases before it left, and each add can be found again, either because its
/// identity is its own canonical identity or because its lookup lands on it.
pub open spec fn well_formed(
    b: Seq<CardView>,
    c: ChangesView,
    m: MigrationTable,
    status: Option<Seq<char>>,
) -> bool {
    let b1 = apply_replaces(b, c.swaps);
    let b2 = apply_replaces(b1, c.edits);
    let b3 = remove_sorted(b2, sort_removes(c.removes));
    &&& replaces_fit(b, c.swaps)
    &&& replaces_fit(b1, c.edits)
    &&& removes_fit(b2, sort_removes(c.removes))
    &&& (adds_fit(c.adds, m) || adds_land(
        b3,
        c.adds,
        stamp_adds(c.adds, status, b3.len() as int),
        m,
    ))
}

proof fn lemma_id_count_same_ids(s1: Seq<CardView>, s2: Seq<CardView>, id: Seq<char>)
    requires
        s1.len() == s2.len(),
        forall|j: int| 0 <= j < s1.len() ==> #[trigger] s1[j].card_id == s2[j].card_id,
    ensures
        id_count(s1, id) == id_count(s2, id),
    decreases s1.len(),
{
    if s1.len() > 0 {
        assert forall|j: int| 0 <= j < s1.drop_last().len() implies #[trigger] s1.drop_last()[j].card_id
            == s2.drop_last()[j].card_id by {
            assert(s1[j].card_id == s2[j].card_id);
        }
        lemma_id_count_same_ids(s1.drop_last(), s2.drop_last(), id);
        assert(s1[s1.len() - 1].card_id == s2[s2.len() - 1].card_id);
    }
}

/// Undoing the adds `a` of a board `b + a2`, where `a2` are the added cards as
/// they entered the board, removes the added cards one by one.
proof fn lemma_undo_adds_inverse(
    b: Seq<CardView>,
    a: Seq<CardView>,
    a2: Seq<CardView>,
    m: MigrationTable,
    k: int,
)
    requires
        adds_fit(a, m),
        a2.len() == a.len(),
        forall|j: int| 0 <= j < a.len() ==> #[trigger] a2[j].card_id == a[j].card_id,
        0 <= k <= a.len(),
    ensures
        undo_adds(b + a2, a.subrange(0, k), m) matches Ok(x) && exists|r: Seq<CardView>|
            {
                &&& x == b + r
                &&& r.len() == a.len() - k
                &&& forall|id: Seq<char>| #[trigger] id_count(r, id) == id_count(
                    a.subrange(k, a.len() as int),
                    id,
                )
            },
    decreases k,
{
    if k == 0 {
        assert(a.subrange(0, 0) =~= Seq::<CardView>::empty());
        assert(a.subrange(0, a.len() as int) =~= a);
        assert forall|id: Seq<char>| #[trigger] id_count(a2, id) == id_count(
            a.subrange(0, a.len() as int),
            id,
        ) by {
            lemma_id_count_same_ids(a2, a, id);
        }
        assert(b + a2 == b + a2);
    } else {
        lemma_undo_adds_inverse(b, a, a2, m, k - 1);
        assert(a.subrange(0, k).drop_last() =~= a.subrange(0, k - 1));
        let x = undo_adds(b + a2, a.subrange(0, k - 1), m)->Ok_0;
        let r = choose|r: Seq<CardView>|
            {
                &&& x == b + r
                &&& r.len() == a.len() - (k - 1)
                &&& forall|id: Seq<char>| #[trigger] id_count(r, id) == id_count(
                    a.subrange(k - 1, a.len() as int),
                    id,
                )
            };
        let c = a[k - 1];
        let rest = a.subrange(k - 1, a.len() as int);
        assert(rest[0] == c);
        lemma_id_count_remove(rest, 0, c.card_id);
        assert(id_count(r, c.card_id) > 0);
        lemma_id_count_found(r, c.card_id);
        let q = choose|q: int| 0 <= q < r.len() && #[trigger] r[q].card_id == c.card_id;
        assert(x[b.len() + q].card_id == c.card_id);
        lemma_last_id_match_found(x, c.card_id);
        let i = last_id_match(x, c.card_id)->Some_0;
        assert(i >= b.len() + q);
        assert(canonical_key(c, m).0 == c.card_id);
        assert(locate_spec(x, canonical_key(c, m)) == Some(i));
        let r2 = r.remove(i - b.len());
        assert(x.remove(i) =~= b + r2);
        assert(rest.remove(0) =~= a.subrange(k, a.len() as int));
        assert forall|id: Seq<char>| #[trigger] id_count(r2, id) == id_count(
            a.subrange(k, a.len() as int),
            id,
        ) by {
            lemma_id_count_remove(r, i - b.len(), id);
            lemma_id_count_remove(rest, 0, id);
            assert(r[i - b.len()].card_id == c.card_id);
        }
    }
}

/// Undoing adds whose every lookup lands on the first remaining added card
/// removes the added cards in order.
proof fn lemma_undo_adds_landing(
    b: Seq<CardView>,
    a: Seq<CardView>,
    a2: Seq<CardView>,
    m: MigrationTable,
    k: int,
)
    requires
        adds_land(b, a, a2, m),
        0 <= k <= a.len(),
    ensures
        undo_adds(b + a2, a.subrange(0, k), m) == Ok::<Seq<CardView>, RevertError>(
            b + a2.subrange(k, a2.len() as int),
        ),
    decreases k,
{
    if k == 0 {
        assert(a.subrange(0, 0) =~= Seq::<CardView>::empty());
        assert(b + a2.subrange(0, a2.len() as int) =~= b + a2);
    } else {
        lemma_undo_adds_landing(b, a, a2, m, k - 1);
        assert(a.subrange(0, k).drop_last() =~= a.subrange(0, k - 1));
        let x = b + a2.subrange(k - 1, a2.len() as int);
        assert(locate_spec(x, canonical_key(a[k - 1], m)) == Some(b.len() as int));
        assert(x.remove(b.len() as int) =~= b + a2.subrange(k, a2.len() as int));
    }
}

proof fn lemma_reinsert_front(x: Seq<CardView>, s: Seq<(Option<i32>, CardView)>)
    requires
        s.len() > 0,
    ensures
        reinsert(x, s) == match reinsert_one(x, s[0]) {
            Ok(y) => reinsert(y, s.drop_first()),
            Err(e) => Err(e),
        },
    decreases s.len(),
{
    if s.len() == 1 {
        assert(s.drop_last() =~= Seq::<(Option<i32>, CardView)>::empty());
        assert(s.drop_first() =~= Seq::<(Option<i32>, CardView)>::empty());
    } else {
        lemma_reinsert_front(x, s.drop_last());
        assert(s.drop_last().drop_first() =~= s.drop_first().drop_last());
        assert(s.drop_last()[0] == s[0]);
    }
}

proof fn lemma_removes_fit_tail(b: Seq<CardView>, s: Seq<(Option<i32>, CardView)>)
    requires
        removes_fit(b, s),
        s.len() > 0,
    ensures
        removes_fit(b, s.drop_first()),
{
    let t = s.drop_first();
    assert forall|j: int| 0 <= j < t.len() implies 0 <= #[trigger] index_of(t[j].0) < b.len()
        && t[j].1 == b[index_of(t[j].0)] by {
        assert(t[j] == s[j + 1]);
    }
    assert forall|j: int, k: int| 0 <= j < k < t.len() implies index_of(#[trigger] t[j].0)
        < index_of(#[trigger] t[k].0) by {
        assert(t[j] == s[j + 1]);
        assert(t[k] == s[k + 1]);
    }
}

proof fn lemma_remove_sorted_shape(b: Seq<CardView>, s: Seq<(Option<i32>, CardView)>)
    requires
        removes_fit(b, s),
    ensures
        remove_sorted(b, s).len() == b.len() - s.len(),
        s.len() > 0 ==> forall|q: int|
            0 <= q < index_of(s[0].0) ==> #[trigger] remove_sorted(b, s)[q] == b[q],
    decreases s.len(),
{
    if s.len() > 0 {
        let t = s.drop_first();
        lemma_removes_fit_tail(b, s);
        lemma_remove_sorted_shape(b, t);
        lemma_ascending_room(b, s);
        let i0 = index_of(s[0].0);
        if t.len() > 0 {
            assert(index_of(s[0].0) < index_of(s[1].0));
            assert(t[0] == s[1]);
        }
    }
}

/// Strictly ascending indices below `b.len()` leave room: the first is at most
/// `b.len() - s.len()`.
proof fn lemma_ascending_room(b: Seq<CardView>, s: Seq<(Option<i32>, CardView)>)
    requires
        removes_fit(b, s),
        s.len() > 0,
    ensures
        index_of(s[0].0) + s.len() <= b.len(),
    decreases s.len(),
{
    if s.len() > 1 {
        let t = s.drop_first();
        lemma_removes_fit_tail(b, s);
        lemma_ascending_room(b, t);
        assert(t[0] == s[1]);
        assert(index_of(s[0].0) < index_of(s[1].0));
    }
}

proof fn lemma_reinsert_inverse(b: Seq<CardView>, s: Seq<(Option<i32>, CardView)>)
    requires
        removes_fit(b, s),
    ensures
        reinsert(remove_sorted(b, s), s) == Ok::<Seq<CardView>, RevertError>(b),
    decreases s.len(),
{
    if s.len() == 0 {
    } else {
        let t = s.drop_first();
        lemma_removes_fit_tail(b, s);
        lemma_reinsert_inverse(b, t);
        lemma_remove_sorted_shape(b, t);
        lemma_ascending_room(b, s);
        let tr = remove_sorted(b, t);
        let i0 = index_of(s[0].0);
        assert(0 <= i0 < tr.len());
        if t.len() > 0 {
            assert(t[0] == s[1]);
            assert(i0 < index_of(s[1].0));
        }
        assert(tr[i0] == b[i0]);
        assert(s[0].0 == Some(i0 as i32));
        let x = remove_sorted(b, s);
        assert(x == tr.remove(i0));
        assert(x.insert(i0, s[0].1) =~= tr);
        lemma_reinsert_front(x, s);
    }
}

proof fn lemma_apply_replaces_shape(b: Seq<CardView>, s: Seq<(Option<i32>, CardView, CardView)>)
    ensures
        apply_replaces(b, s).len() == b.len(),
        forall|q: int|
            0 <= q < b.len() && (forall|j: int| 0 <= j < s.len() ==> index_of(#[trigger] s[j].0) != q)
                ==> #[trigger] apply_replaces(b, s)[q] == b[q],
    decreases s.len(),
{
    if s.len() > 0 {
        lemma_apply_replaces_shape(b, s.drop_last());
        assert forall|q: int|
            0 <= q < b.len() && (forall|j: int| 0 <= j < s.len() ==> index_of(#[trigger] s[j].0) != q)
                implies #[trigger] apply_replaces(b, s)[q] == b[q] by {
            assert forall|j: int| 0 <= j < s.drop_last().len() implies index_of(
                #[trigger] s.drop_last()[j].0,
            ) != q by {
                assert(s.drop_last()[j] == s[j]);
            }
            assert(index_of(s[s.len() - 1].0) != q);
        }
    }
}

proof fn lemma_undo_replaces_shape(
    x: Seq<CardView>,
    b: Seq<CardView>,
    s: Seq<(Option<i32>, CardView, CardView)>,
    m: MigrationTable,
    miss: RevertError,
)
    requires
        x.len() == b.len(),
        replaces_fit(b, s),
    ensures
        undo_replaces(x, s, m, miss) matches Ok(y) && y.len() == x.len() && (forall|j: int|
            0 <= j < s.len() ==> y[index_of(#[trigger] s[j].0)] == b[index_of(s[j].0)]) && (forall|
            q: int,
        |
            0 <= q < x.len() && (forall|j: int| 0 <= j < s.len() ==> index_of(#[trigger] s[j].0) != q)
                ==> #[trigger] y[q] == x[q]),
    decreases s.len(),
{
    if s.len() > 0 {
        let t = s.drop_last();
        assert(replaces_fit(b, t)) by {
            assert forall|j: int| 0 <= j < t.len() implies 0 <= #[trigger] index_of(t[j].0) < b.len()
                && t[j].1 == b[index_of(t[j].0)] by {
                assert(t[j] == s[j]);
            }
        }
        lemma_undo_replaces_shape(x, b, t, m, miss);
        let y0 = undo_replaces(x, t, m, miss)->Ok_0;
        let last = s.last();
        let i = index_of(last.0);
        assert(last.0 == Some(i as i32));
        let y = y0.update(i, last.1);
        assert(undo_replaces(x, s, m, miss) == Ok::<Seq<CardView>, RevertError>(y));
        assert forall|j: int| 0 <= j < s.len() implies y[index_of(#[trigger] s[j].0)] == b[index_of(
            s[j].0,
        )] by {
            if j < s.len() - 1 {
                assert(t[j] == s[j]);
            }
        }
        assert forall|q: int|
            0 <= q < x.len() && (forall|j: int| 0 <= j < s.len() ==> index_of(#[trigger] s[j].0) != q)
                implies #[trigger] y[q] == x[q] by {
            assert forall|j: int| 0 <= j < t.len() implies index_of(#[trigger] t[j].0) != q by {
                assert(t[j] == s[j]);
            }
            assert(index_of(s[s.len() - 1].0) != q);
        }
    }
}

proof fn lemma_replaces_inverse(
    b: Seq<CardView>,
    s: Seq<(Option<i32>, CardView, CardView)>,
    m: MigrationTable,
    miss: RevertError,
)
    requires
        replaces_fit(b, s),
    ensures
        undo_replaces(apply_replaces(b, s), s, m, miss) == Ok::<Seq<CardView>, RevertError>(b),
{
    let x = apply_replaces(b, s);
    lemma_apply_replaces_shape(b, s);
    lemma_undo_replaces_shape(x, b, s, m, miss);
    let y = undo_replaces(x, s, m, miss)->Ok_0;
    assert forall|q: int| 0 <= q < b.len() implies y[q] == b[q] by {
        if exists|j: int| 0 <= j < s.len() && index_of(#[trigger] s[j].0) == q {
            let j = choose|j: int| 0 <= j < s.len() && index_of(#[trigger] s[j].0) == q;
            assert(y[index_of(s[j].0)] == b[index_of(s[j].0)]);
        } else {
            assert(x[q] == b[q]);
        }
    }
    assert(y =~= b);
}

/// Undoing an operation set restores the board it was recorded against:
/// for a board `b` and an operation set `c` that fits it,
/// `revert(apply(b, c), c) == b`.
pub proof fn lemma_revert_inverts_apply(
    b: Seq<CardView>,
    c: ChangesView,
    m: MigrationTable,
    status: Option<Seq<char>>,
)
    requires
        well_formed(b, c, m, status),
    ensures
        revert_spec(apply_spec(b, c, status), c, m) == Ok::<Seq<CardView>, RevertError>(b),
{
    let b1 = apply_replaces(b, c.swaps);
    let b2 = apply_replaces(b1, c.edits);
    let rs = sort_removes(c.removes);
    let b3 = remove_sorted(b2, rs);
    let a2 = stamp_adds(c.adds, status, b3.len() as int);
    assert(c.adds.subrange(0, c.adds.len() as int) =~= c.adds);
    if adds_fit(c.adds, m) {
        lemma_undo_adds_inverse(b3, c.adds, a2, m, c.adds.len() as int);
        let r = choose|r: Seq<CardView>|
            {
                &&& undo_adds(b3 + a2, c.adds, m)->Ok_0 == #[trigger] (b3 + r)
                &&& r.len() == 0
            };
        assert(b3 + r =~= b3);
    } else {
        lemma_undo_adds_landing(b3, c.adds, a2, m, c.adds.len() as int);
        assert(b3 + a2.subrange(a2.len() as int, a2.len() as int) =~= b3);
    }
    lemma_reinsert_inverse(b2, rs);
    lemma_replaces_inverse(b1, c.edits, m, RevertError::EditNotFound);
    lemma_replaces_inverse(b, c.swaps, m, RevertError::SwapNotFound);
}

fn index_in(o: Option<i32>, len: usize) -> (r: Option<usize>)
    ensures
        r matches Some(i) ==> i as int == index_of(o) && i < len,
        r is None ==> !(0 <= index_of(o) < len),
{
    match o {
        Some(i) => if i >= 0 && (i as usize) < len {
            Some(i as usize)
        } else {
            None
        },
        None => None,
    }
}

fn apply_replaces_exec(package: &mut Vec<Card>, ops: &Vec<ReplaceOp>)
    ensures
        cards_view(final(package)@) == apply_replaces(cards_view(old(package)@), replaces_view(ops@)),
{
    let ghost b0 = cards_view(package@);
    let ghost ov = replaces_view(ops@);
    let mut i: usize = 0;
    assert(ov.subrange(0, 0) =~= Seq::<(Option<i32>, CardView, CardView)>::empty());
    while i < ops.len()
        invariant
            i <= ops@.len(),
            ov == replaces_view(ops@),
            b0 == cards_view(old(package)@),
            cards_view(package@) == apply_replaces(b0, ov.subrange(0, i as int)),
        decreases ops@.len() - i,
    {
        let op = &ops[i];
        assert(ov.subrange(0, i + 1).drop_last() =~= ov.subrange(0, i as int));
        assert(ov.subrange(0, i + 1).last() == (op.index, op.old_card@, op.new_card@));
        let ghost before = package@;
        match index_in(op.index, package.len()) {
            Some(at) => {
                package.set(at, op.new_card.duplicate());
                assert(cards_view(package@) =~= cards_view(before).update(at as int, op.new_card@));
            },
            None => {},
        }
        i = i + 1;
    }
    assert(ov.subrange(0, i as int) =~= ov);
}

proof fn lemma_remove_sorted_len(b: Seq<CardView>, s: Seq<(Option<i32>, CardView)>)
    ensures
        remove_sorted(b, s).len() <= b.len(),
    decreases s.len(),
{
    if s.len() > 0 {
        lemma_remove_sorted_len(b, s.drop_first());
    }
}

/// Changes `package` from the board before an event to the board after it:
/// swaps, then edits, then removes from the highest index down, then adds at
/// the end, each added card taking `default_status` and its index as
/// position. Every recorded index must lie inside the board.
pub fn apply_changelog(default_status: &Option<String>, package: &mut Vec<Card>, changes: &BoardChanges)
    requires
        applicable(cards_view(old(package)@), changes@),
        old(package)@.len() + changes.adds@.len() <= i32::MAX,
    ensures
        cards_view(final(package)@) == apply_spec(
            cards_view(old(package)@),
            changes@,
            opt_str_view(*default_status),
        ),
{
    let ghost b0 = cards_view(package@);
    apply_replaces_exec(package, &changes.swaps);
    apply_replaces_exec(package, &changes.edits);
    let sorted = sorted_removes(&changes.removes);
    let ghost b2 = cards_view(package@);
    let ghost sv = removes_view(sorted@);
    let n = sorted.len();
    let mut k: usize = n;
    assert(sv.subrange(n as int, n as int) =~= Seq::<(Option<i32>, CardView)>::empty());
    while k > 0
        invariant
            k <= n,
            n == sorted@.len(),
            sv == removes_view(sorted@),
            cards_view(package@) == remove_sorted(b2, sv.subrange(k as int, n as int)),
        decreases k,
    {
        let op = &sorted[k - 1];
        assert(sv.subrange(k - 1, n as int).drop_first() =~= sv.subrange(k as int, n as int));
        assert(sv.subrange(k - 1, n as int)[0] == (op.index, op.old_card@));
        let ghost before = package@;
        match index_in(op.index, package.len()) {
            Some(at) => {
                package.remove(at);
                assert(cards_view(package@) =~= cards_view(before).remove(at as int));
            },
            None => {},
        }
        k = k - 1;
    }
    assert(sv.subrange(0, n as int) =~= sv);
    let ghost b3 = cards_view(package@);
    let ghost av = adds_view(changes.adds@);
    let ghost stamped = stamp_adds(av, opt_str_view(*default_status), b3.len() as int);
    proof {
        lemma_apply_replaces_shape(b0, changes@.swaps);
        lemma_apply_replaces_shape(apply_replaces(b0, changes@.swaps), changes@.edits);
        lemma_remove_sorted_len(b2, sv);
    }
    let mut i: usize = 0;
    while i < changes.adds.len()
        invariant
            i <= changes.adds@.len(),
            av == adds_view(changes.adds@),
            stamped == stamp_adds(av, opt_str_view(*default_status), b3.len() as int),
            b3.len() + changes.adds@.len() <= i32::MAX,
            package@.len() == b3.len() + i,
            cards_view(package@) == b3 + stamped.subrange(0, i as int),
        decreases changes.adds@.len() - i,
    {
        let ghost before = package@;
        let mut c = changes.adds[i].card.duplicate();
        c.status = copy_opt_str(default_status);
        c.position = Some(package.len() as i32);
        assert(c@ == stamped[i as int]);
        package.push(c);
        assert(cards_view(package@) =~= cards_view(before).push(c@));
        i = i + 1;
        assert(cards_view(package@) =~= b3 + stamped.subrange(0, i as int));
    }
    assert(stamped.subrange(0, i as int) =~= stamped);
}

} // verus!
