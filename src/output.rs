//! The tab-separated files that hold a board, and the overview text.
use vstd::prelude::*;
use vstd::string::*;
use crate::card::{cards_view, strs_view, Card, CardView};
use crate::migration::{resolve, resolve_spec, MigrationMap};
use crate::revert::MigrationTable;

verus! {

/// What an absent field is written as.
pub const SENTINEL: &'static str = "~~";

/// The column names, in order.
pub open spec fn header_spec() -> Seq<Seq<char>> {
    seq![
        "Name"@,
        "Set"@,
        "CollectorNumber"@,
        "Status"@,
        "Tags"@,
        "Finish"@,
        "Cmc"@,
        "Colors"@,
        "ColorCategory"@,
        "Rarity"@,
        "TypeLine"@,
    ]
}

/// The strings of `s`, separated by commas.
pub open spec fn join_commas(s: Seq<Seq<char>>) -> Seq<char>
    decreases s.len(),
{
    if s.len() == 0 {
        Seq::empty()
    } else if s.len() == 1 {
        s[0]
    } else {
        join_commas(s.drop_last()) + seq![','] + s.last()
    }
}

pub open spec fn or_sentinel(o: Option<Seq<char>>) -> Seq<char> {
    match o {
        Some(s) => s,
        None => SENTINEL@,
    }
}

/// A list field: joined by commas, or the sentinel where absent or empty.
pub open spec fn list_or_sentinel(o: Option<Seq<Seq<char>>>) -> Seq<char> {
    match o {
        Some(s) => if s.len() > 0 {
            join_commas(s)
        } else {
            SENTINEL@
        },
        None => SENTINEL@,
    }
}

/// The row of one card; its name is the canonical one.
pub open spec fn row_spec(c: CardView, m: MigrationTable) -> Seq<Seq<char>> {
    seq![
        resolve_spec(c.card_id, c.name, m).1,
        or_sentinel(c.set),
        or_sentinel(c.collector_number),
        or_sentinel(c.status),
        list_or_sentinel(c.tags),
        or_sentinel(c.finish),
        or_sentinel(c.cmc),
        list_or_sentinel(c.colors),
        or_sentinel(c.color_category),
        or_sentinel(c.rarity),
        or_sentinel(c.type_line),
    ]
}

/// The header, then one row per card in board order.
pub open spec fn table_spec(b: Seq<CardView>, m: MigrationTable) -> Seq<Seq<Seq<char>>> {
    seq![header_spec()] + b.map_values(|c: CardView| row_spec(c, m))
}

pub open spec fn rows_view(r: Seq<Vec<String>>) -> Seq<Seq<Seq<char>>> {
    r.map_values(|row: Vec<String>| strs_view(row@))
}

fn text_or_sentinel(o: &Option<String>) -> (r: String)
    ensures
        r@ == or_sentinel(match o {
            Some(s) => Some(s@),
            None => None,
        }),
{
    match o {
        Some(s) => s.clone(),
        None => SENTINEL.to_string(),
    }
}

fn joined(v: &Vec<String>) -> (r: String)
    ensures
        r@ == join_commas(strs_view(v@)),
{
    let ghost sv = strs_view(v@);
    let mut r = String::new();
    let mut i: usize = 0;
    while i < v.len()
        invariant
            i <= v@.len(),
            sv == strs_view(v@),
            r@ == join_commas(sv.subrange(0, i as int)),
        decreases v@.len() - i,
    {
        assert(sv.subrange(0, i + 1).drop_last() =~= sv.subrange(0, i as int));
        if i > 0 {
            proof {
                reveal_strlit(",");
            }
            r.append(",");
        }
        r.append(v[i].as_str());
        i = i + 1;
    }
    assert(sv.subrange(0, i as int) =~= sv);
    r
}

fn list_text(o: &Option<Vec<String>>) -> (r: String)
    ensures
        r@ == list_or_sentinel(match o {
            Some(v) => Some(strs_view(v@)),
            None => None,
        }),
{
    match o {
        Some(v) => if v.len() > 0 {
            joined(v)
        } else {
            SENTINEL.to_string()
        },
        None => SENTINEL.to_string(),
    }
}

/// The row that stands for `card` in a board file.
pub fn card_row(card: &Card, migrations: &MigrationMap) -> (r: Vec<String>)
    ensures
        strs_view(r@) == row_spec(card@, migrations@),
{
    let (_, name) = resolve(&card.card_id, &card.name, migrations);
    let r = vec![
        name,
        text_or_sentinel(&card.set),
        text_or_sentinel(&card.collector_number),
        text_or_sentinel(&card.status),
        list_text(&card.tags),
        text_or_sentinel(&card.finish),
        text_or_sentinel(&card.cmc),
        list_text(&card.colors),
        text_or_sentinel(&card.color_category),
        text_or_sentinel(&card.rarity),
        text_or_sentinel(&card.type_line),
    ];
    assert(strs_view(r@) =~= row_spec(card@, migrations@));
    r
}

fn header_row() -> (r: Vec<String>)
    ensures
        strs_view(r@) == header_spec(),
{
    let r = vec![
        "Name".to_string(),
        "Set".to_string(),
        "CollectorNumber".to_string(),
        "Status".to_string(),
        "Tags".to_string(),
        "Finish".to_string(),
        "Cmc".to_string(),
        "Colors".to_string(),
        "ColorCategory".to_string(),
        "Rarity".to_string(),
        "TypeLine".to_string(),
    ];
    assert(strs_view(r@) =~= header_spec());
    r
}

/// The header and the rows of a board file, in board order.
pub fn package_rows(package: &Vec<Card>, migrations: &MigrationMap) -> (r: Vec<Vec<String>>)
    ensures
        rows_view(r@) == table_spec(cards_view(package@), migrations@),
{
    let ghost t = table_spec(cards_view(package@), migrations@);
    let mut r: Vec<Vec<String>> = Vec::new();
    r.push(header_row());
    let mut i: usize = 0;
    while i < package.len()
        invariant
            i <= package@.len(),
            t == table_spec(cards_view(package@), migrations@),
            rows_view(r@) == t.subrange(0, i + 1),
        decreases package@.len() - i,
    {
        let ghost before = r@;
        r.push(card_row(&package[i], migrations));
        i = i + 1;
        assert(rows_view(r@) =~= rows_view(before).push(t[i as int]));
        assert(rows_view(r@) =~= t.subrange(0, i + 1));
    }
    assert(t.subrange(0, i + 1) =~= t);
    r
}

/// The bytes that the CSV writer gives for `rows`.
pub uninterp spec fn tsv_encoding(rows: Seq<Seq<Seq<char>>>) -> Seq<u8>;

/// Relies on csv::Writer, built with a tab delimiter over an in-memory
/// buffer: the bytes written depend on the records alone, and the only error
/// that writing into memory can give is records of unequal lengths.
#[verifier::external_body]
fn encode_tsv(rows: &Vec<Vec<String>>) -> (r: Option<Vec<u8>>)
    ensures
        r matches Some(b) ==> b@ == tsv_encoding(rows_view(rows@)),
        (forall|i: int| 0 <= i < rows@.len() ==> #[trigger] rows@[i]@.len() == rows@[0]@.len())
            ==> r is Some,
{
    let mut w = csv::WriterBuilder::new().delimiter(b'\t').from_writer(Vec::new());
    for row in rows {
        if w.write_record(row).is_err() {
            return None;
        }
    }
    w.into_inner().ok()
}

/// The contents of the file of one board: its table, tab separated.
pub fn package_file_bytes(package: &Vec<Card>, migrations: &MigrationMap) -> (r: Option<Vec<u8>>)
    ensures
        r is Some,
        r matches Some(b) ==> b@ == tsv_encoding(table_spec(cards_view(package@), migrations@)),
{
    let rows = package_rows(package, migrations);
    proof {
        let t = table_spec(cards_view(package@), migrations@);
        assert forall|i: int| 0 <= i < rows@.len() implies #[trigger] rows@[i]@.len() == 11 by {
            assert(rows_view(rows@)[i] == strs_view(rows@[i]@));
            assert(strs_view(rows@[i]@).len() == rows@[i]@.len());
            assert(rows_view(rows@).len() == rows@.len());
            let mv = cards_view(package@).map_values(|c: CardView| row_spec(c, migrations@));
            if i > 0 {
                assert(t[i] == mv[i - 1]);
            } else {
                assert(t[i] == header_spec());
            }
        }
    }
    encode_tsv(&rows)
}

/// An absent set is written as the sentinel, and no other column changes.
pub proof fn lemma_sentinel_set(c: CardView, m: MigrationTable)
    ensures
        row_spec(CardView { set: None, ..c }, m)[1] == SENTINEL@,
        forall|j: int|
            0 <= j < 11 && j != 1 ==> #[trigger] row_spec(CardView { set: None, ..c }, m)[j]
                == row_spec(c, m)[j],
{
}

pub open spec fn overview_spec(
    name: Seq<char>,
    image_name: Seq<char>,
    image_uri: Seq<char>,
    description: Seq<char>,
) -> Seq<char> {
    "# "@ + name + "\n\n!["@ + image_name + "]("@ + image_uri + ")\n"@ + description + "\n"@
}

/// The overview file of a collection: its title, its image and its
/// description.
pub fn overview_text(name: &str, image_name: &str, image_uri: &str, description: &str) -> (r:
    String)
    ensures
        r@ == overview_spec(name@, image_name@, image_uri@, description@),
{
    let mut r = "# ".to_string();
    r.append(name);
    r.append("\n\n![");
    r.append(image_name);
    r.append("](");
    r.append(image_uri);
    r.append(")\n");
    r.append(description);
    r.append("\n");
    r
}

} // verus!
