//! Cards, boards and the operation sets recorded against a board.
use vstd::prelude::*;

verus! {

/// One entry of a board.
pub struct Card {
    pub card_id: String,
    pub name: String,
    pub set: Option<String>,
    pub collector_number: Option<String>,
    pub status: Option<String>,
    pub tags: Option<Vec<String>>,
    pub finish: Option<String>,
    /// The converted mana cost, as the text it is written out with.
    pub cmc: Option<String>,
    pub colors: Option<Vec<String>>,
    pub color_category: Option<String>,
    pub rarity: Option<String>,
    pub type_line: Option<String>,
    /// Rank of the card within its board, where the source gives one.
    pub position: Option<i32>,
}

/// The mathematical value of a [`Card`].
pub struct CardView {
    pub card_id: Seq<char>,
    pub name: Seq<char>,
    pub set: Option<Seq<char>>,
    pub collector_number: Option<Seq<char>>,
    pub status: Option<Seq<char>>,
    pub tags: Option<Seq<Seq<char>>>,
    pub finish: Option<Seq<char>>,
    pub cmc: Option<Seq<char>>,
    pub colors: Option<Seq<Seq<char>>>,
    pub color_category: Option<Seq<char>>,
    pub rarity: Option<Seq<char>>,
    pub type_line: Option<Seq<char>>,
    pub position: Option<i32>,
}

pub open spec fn opt_str_view(o: Option<String>) -> Option<Seq<char>> {
    match o {
        Some(s) => Some(s@),
        None => None,
    }
}

pub open spec fn strs_view(v: Seq<String>) -> Seq<Seq<char>> {
    v.map_values(|s: String| s@)
}

pub open spec fn opt_strs_view(o: Option<Vec<String>>) -> Option<Seq<Seq<char>>> {
    match o {
        Some(v) => Some(strs_view(v@)),
        None => None,
    }
}

impl View for Card {
    type V = CardView;

    open spec fn view(&self) -> CardView {
        CardView {
            card_id: self.card_id@,
            name: self.name@,
            set: opt_str_view(self.set),
            collector_number: opt_str_view(self.collector_number),
            status: opt_str_view(self.status),
            tags: opt_strs_view(self.tags),
            finish: opt_str_view(self.finish),
            cmc: opt_str_view(self.cmc),
            colors: opt_strs_view(self.colors),
            color_category: opt_str_view(self.color_category),
            rarity: opt_str_view(self.rarity),
            type_line: opt_str_view(self.type_line),
            position: self.position,
        }
    }
}

/// A board as the sequence of its cards' values.
pub open spec fn cards_view(s: Seq<Card>) -> Seq<CardView> {
    s.map_values(|c: Card| c@)
}

pub(crate) fn copy_opt_str(o: &Option<String>) -> (r: Option<String>)
    ensures
        opt_str_view(r) == opt_str_view(*o),
{
    match o {
        Some(s) => Some(s.clone()),
        None => None,
    }
}

fn copy_strs(v: &Vec<String>) -> (r: Vec<String>)
    ensures
        strs_view(r@) == strs_view(v@),
{
    let mut r: Vec<String> = Vec::new();
    let mut i: usize = 0;
    while i < v.len()
        invariant
            i <= v.len(),
            r.len() == i,
            forall|j: int| 0 <= j < i ==> #[trigger] r@[j]@ == v@[j]@,
        decreases v.len() - i,
    {
        r.push(v[i].clone());
        i = i + 1;
    }
    assert(strs_view(r@) =~= strs_view(v@));
    r
}

fn copy_opt_strs(o: &Option<Vec<String>>) -> (r: Option<Vec<String>>)
    ensures
        opt_strs_view(r) == opt_strs_view(*o),
{
    match o {
        Some(v) => Some(copy_strs(v)),
        None => None,
    }
}

impl Card {
    /// A fresh card with the same value.
    pub fn duplicate(&self) -> (r: Card)
        ensures
            r@ == self@,
    {
        Card {
            card_id: self.card_id.clone(),
            name: self.name.clone(),
            set: copy_opt_str(&self.set),
            collector_number: copy_opt_str(&self.collector_number),
            status: copy_opt_str(&self.status),
            tags: copy_opt_strs(&self.tags),
            finish: copy_opt_str(&self.finish),
            cmc: copy_opt_str(&self.cmc),
            colors: copy_opt_strs(&self.colors),
            color_category: copy_opt_str(&self.color_category),
            rarity: copy_opt_str(&self.rarity),
            type_line: copy_opt_str(&self.type_line),
            position: self.position,
        }
    }
}

/// A fresh board with the same cards, in the same order.
pub fn copy_board(b: &Vec<Card>) -> (r: Vec<Card>)
    ensures
        cards_view(r@) == cards_view(b@),
{
    let mut r: Vec<Card> = Vec::new();
    let mut i: usize = 0;
    while i < b.len()
        invariant
            i <= b.len(),
            r.len() == i,
            forall|j: int| 0 <= j < i ==> #[trigger] r@[j]@ == b@[j]@,
        decreases b.len() - i,
    {
        r.push(b[i].duplicate());
        i = i + 1;
    }
    assert(cards_view(r@) =~= cards_view(b@));
    r
}

/// The rank a card is ordered by: its position, or zero where it has none.
pub open spec fn position_key(c: CardView) -> int {
    match c.position {
        Some(p) => p as int,
        None => 0,
    }
}

/// Where a card of rank `k` goes in the ordered `s`: after every card whose
/// rank is not greater.
pub open spec fn position_slot(s: Seq<CardView>, k: int) -> int
    decreases s.len(),
{
    if s.len() == 0 {
        0
    } else if position_key(s.last()) <= k {
        s.len() as int
    } else {
        position_slot(s.drop_last(), k)
    }
}

/// The cards ordered by rank; cards of equal rank keep their order.
pub open spec fn sort_by_position(s: Seq<CardView>) -> Seq<CardView>
    decreases s.len(),
{
    if s.len() == 0 {
        s
    } else {
        let r = sort_by_position(s.drop_last());
        r.insert(position_slot(r, position_key(s.last())), s.last())
    }
}

fn rank(c: &Card) -> (k: i64)
    ensures
        k == position_key(c@),
{
    match c.position {
        Some(p) => p as i64,
        None => 0,
    }
}

/// A copy of `board` ordered by rank, stably.
pub fn sorted_by_position(board: &Vec<Card>) -> (r: Vec<Card>)
    ensures
        cards_view(r@) == sort_by_position(cards_view(board@)),
{
    let ghost bv = cards_view(board@);
    let mut res: Vec<Card> = Vec::new();
    let mut i: usize = 0;
    while i < board.len()
        invariant
            i <= board@.len(),
            bv == cards_view(board@),
            cards_view(res@) == sort_by_position(bv.subrange(0, i as int)),
        decreases board@.len() - i,
    {
        let c = &board[i];
        let k = rank(c);
        let ghost rv = cards_view(res@);
        let mut p: usize = res.len();
        assert(rv.subrange(0, p as int) =~= rv);
        while p > 0 && rank(&res[p - 1]) > k
            invariant
                p <= res@.len(),
                rv == cards_view(res@),
                position_slot(rv.subrange(0, p as int), k as int) == position_slot(rv, k as int),
            decreases p,
        {
            assert(rv.subrange(0, p as int).drop_last() =~= rv.subrange(0, p - 1));
            p = p - 1;
        }
        assert(rv.subrange(0, 0) =~= Seq::<CardView>::empty());
        assert(position_slot(rv, k as int) == p);
        res.insert(p, c.duplicate());
        proof {
            let s = bv.subrange(0, i + 1);
            assert(s.drop_last() =~= bv.subrange(0, i as int));
            assert(cards_view(res@) =~= rv.insert(p as int, s.last()));
        }
        i = i + 1;
    }
    assert(bv.subrange(0, i as int) =~= bv);
    res
}

/// Undoing it removes the card again.
pub struct AddOp {
    pub card: Card,
}

/// A card taken out of the board, with the place it had.
pub struct RemoveOp {
    pub index: Option<i32>,
    pub old_card: Card,
}

/// A card replaced in place, by an edit or by a swap.
pub struct ReplaceOp {
    pub index: Option<i32>,
    pub old_card: Card,
    pub new_card: Card,
}

/// The operations that one change event made to one board.
pub struct BoardChanges {
    pub adds: Vec<AddOp>,
    pub removes: Vec<RemoveOp>,
    pub edits: Vec<ReplaceOp>,
    pub swaps: Vec<ReplaceOp>,
}

/// The mathematical value of a [`BoardChanges`].
pub struct ChangesView {
    pub adds: Seq<CardView>,
    pub removes: Seq<(Option<i32>, CardView)>,
    pub edits: Seq<(Option<i32>, CardView, CardView)>,
    pub swaps: Seq<(Option<i32>, CardView, CardView)>,
}

pub open spec fn adds_view(s: Seq<AddOp>) -> Seq<CardView> {
    s.map_values(|a: AddOp| a.card@)
}

pub open spec fn removes_view(s: Seq<RemoveOp>) -> Seq<(Option<i32>, CardView)> {
    s.map_values(|r: RemoveOp| (r.index, r.old_card@))
}

pub open spec fn replaces_view(s: Seq<ReplaceOp>) -> Seq<(Option<i32>, CardView, CardView)> {
    s.map_values(|r: ReplaceOp| (r.index, r.old_card@, r.new_card@))
}

impl View for BoardChanges {
    type V = ChangesView;

    open spec fn view(&self) -> ChangesView {
        ChangesView {
            adds: adds_view(self.adds@),
            removes: removes_view(self.removes@),
            edits: replaces_view(self.edits@),
            swaps: replaces_view(self.swaps@),
        }
    }
}

impl ChangesView {
    /// At least one operation was recorded.
    pub open spec fn touches(self) -> bool {
        self.adds.len() > 0 || self.removes.len() > 0 || self.edits.len() > 0 || self.swaps.len()
            > 0
    }
}

impl BoardChanges {
    pub fn new() -> (r: BoardChanges)
        ensures
            !r@.touches(),
    {
        BoardChanges { adds: Vec::new(), removes: Vec::new(), edits: Vec::new(), swaps: Vec::new() }
    }

    pub fn is_empty(&self) -> (r: bool)
        ensures
            r == !self@.touches(),
    {
        self.adds.len() == 0 && self.removes.len() == 0 && self.edits.len() == 0
            && self.swaps.len() == 0
    }
}

} // verus!
