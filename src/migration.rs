//! The migration table: which card identity replaced which, and under what
//! name, and how a raw identity resolves to its canonical one.
use vstd::prelude::*;

verus! {

/// The name given to a migrated card whose record carries none.
pub const UNKNOWN_CARD: &'static str = "Unknown Card";

/// One row of the table: `old_id` now stands for `(new_id, name)`.
pub struct MigrationEntry {
    pub old_id: String,
    pub new_id: String,
    pub name: String,
}

/// A table from raw card identity to canonical (identity, name) pair. Of two
/// rows for one identity the later one holds.
pub struct MigrationMap {
    entries: Vec<MigrationEntry>,
}

pub open spec fn map_of(s: Seq<MigrationEntry>) -> Map<Seq<char>, (Seq<char>, Seq<char>)>
    decreases s.len(),
{
    if s.len() == 0 {
        Map::empty()
    } else {
        let e = s.last();
        map_of(s.drop_last()).insert(e.old_id@, (e.new_id@, e.name@))
    }
}

impl View for MigrationMap {
    type V = Map<Seq<char>, (Seq<char>, Seq<char>)>;

    closed spec fn view(&self) -> Self::V {
        map_of(self.entries@)
    }
}

/// The canonical identity and name of a card: the table's pair where the
/// identity has a row, else the raw pair itself.
pub open spec fn resolve_spec(
    id: Seq<char>,
    name: Seq<char>,
    m: Map<Seq<char>, (Seq<char>, Seq<char>)>,
) -> (Seq<char>, Seq<char>) {
    if m.contains_key(id) {
        m[id]
    } else {
        (id, name)
    }
}

impl MigrationMap {
    pub fn new() -> (r: MigrationMap)
        ensures
            r@ == Map::<Seq<char>, (Seq<char>, Seq<char>)>::empty(),
    {
        MigrationMap { entries: Vec::new() }
    }

    /// Sets the row of `old_id`, replacing any earlier one.
    pub fn insert(&mut self, old_id: String, new_id: String, name: String)
        ensures
            final(self)@ == old(self)@.insert(old_id@, (new_id@, name@)),
    {
        self.entries.push(MigrationEntry { old_id, new_id, name });
        assert(final(self).entries@.drop_last() =~= old(self).entries@);
    }

    /// The row of `id`, if there is one.
    pub fn get(&self, id: &String) -> (r: Option<(String, String)>)
        ensures
            r is Some <==> self@.contains_key(id@),
            r matches Some(p) ==> self@[id@] == (p.0@, p.1@),
    {
        let n = self.entries.len();
        let mut j: usize = n;
        assert(self.entries@.subrange(0, n as int) =~= self.entries@);
        while j > 0
            invariant
                j <= n,
                n == self.entries@.len(),
                map_of(self.entries@.subrange(0, j as int)).contains_key(id@)
                    == self@.contains_key(id@),
                self@.contains_key(id@) ==> map_of(self.entries@.subrange(0, j as int))[id@]
                    == self@[id@],
            decreases j,
        {
            let e = &self.entries[j - 1];
            assert(self.entries@.subrange(0, j as int).drop_last() =~= self.entries@.subrange(
                0,
                j - 1,
            ));
            if e.old_id == *id {
                return Some((e.new_id.clone(), e.name.clone()));
            }
            j = j - 1;
        }
        assert(self.entries@.subrange(0, 0) =~= Seq::<MigrationEntry>::empty());
        None
    }

    /// Adds every row of `overrides`, which win over rows already present.
    pub fn apply_overrides(&mut self, overrides: &MigrationMap)
        ensures
            final(self)@ == old(self)@.union_prefer_right(overrides@),
    {
        let ghost base = self@;
        let mut i: usize = 0;
        while i < overrides.entries.len()
            invariant
                i <= overrides.entries@.len(),
                self@ == base.union_prefer_right(map_of(overrides.entries@.subrange(0, i as int))),
            decreases overrides.entries@.len() - i,
        {
            let e = &overrides.entries[i];
            self.insert(e.old_id.clone(), e.new_id.clone(), e.name.clone());
            assert(overrides.entries@.subrange(0, i + 1).drop_last() =~= overrides.entries@.subrange(
                0,
                i as int,
            ));
            i = i + 1;
            assert(self@ =~= base.union_prefer_right(
                map_of(overrides.entries@.subrange(0, i as int)),
            ));
        }
        assert(overrides.entries@.subrange(0, i as int) =~= overrides.entries@);
    }
}

/// Resolves a raw (identity, name) pair to its canonical pair.
pub fn resolve(raw_id: &String, raw_name: &String, migrations: &MigrationMap) -> (r: (
    String,
    String,
))
    ensures
        (r.0@, r.1@) == resolve_spec(raw_id@, raw_name@, migrations@),
{
    match migrations.get(raw_id) {
        Some(p) => p,
        None => (raw_id.clone(), raw_name.clone()),
    }
}

/// One published card migration.
pub struct MigrationRecord {
    pub old_id: String,
    /// The identity that replaces `old_id`, for a merge.
    pub new_id: Option<String>,
    /// Whether `old_id` was merged into another card (else it was deleted).
    pub is_merge: bool,
    pub name: Option<String>,
}

pub open spec fn record_name(r: MigrationRecord) -> Seq<char> {
    match r.name {
        Some(n) => n@,
        None => UNKNOWN_CARD@,
    }
}

/// The table that a list of migrations gives: a merge with a new identity maps
/// the old identity to the new one, a merge without one is passed over, and any
/// other migration maps the identity to itself; the name is the record's, or
/// the unknown-card name. Later records win.
pub open spec fn table_of_records(s: Seq<MigrationRecord>) -> Map<
    Seq<char>,
    (Seq<char>, Seq<char>),
>
    decreases s.len(),
{
    if s.len() == 0 {
        Map::empty()
    } else {
        let prev = table_of_records(s.drop_last());
        let r = s.last();
        if r.is_merge {
            match r.new_id {
                Some(n) => prev.insert(r.old_id@, (n@, record_name(r))),
                None => prev,
            }
        } else {
            prev.insert(r.old_id@, (r.old_id@, record_name(r)))
        }
    }
}

/// Builds the table from a list of published migrations.
pub fn merge_map_from_migrations(records: &Vec<MigrationRecord>) -> (r: MigrationMap)
    ensures
        r@ == table_of_records(records@),
{
    let mut m = MigrationMap::new();
    let mut i: usize = 0;
    while i < records.len()
        invariant
            i <= records@.len(),
            m@ == table_of_records(records@.subrange(0, i as int)),
        decreases records@.len() - i,
    {
        let rec = &records[i];
        assert(records@.subrange(0, i + 1).drop_last() =~= records@.subrange(0, i as int));
        let name = match &rec.name {
            Some(n) => n.clone(),
            None => UNKNOWN_CARD.to_string(),
        };
        if rec.is_merge {
            match &rec.new_id {
                Some(n) => m.insert(rec.old_id.clone(), n.clone(), name),
                None => {},
            }
        } else {
            m.insert(rec.old_id.clone(), rec.old_id.clone(), name);
        }
        i = i + 1;
    }
    assert(records@.subrange(0, i as int) =~= records@);
    m
}

} // verus!
