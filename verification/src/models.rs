use vstd::prelude::*;
use crate::text::same_text;

verus! {

broadcast use vstd::string::group_string_axioms;

/// The chunk categories, in the order of their numeric ids.
pub open spec fn category_names() -> Seq<Seq<char>> {
    seq![
        "explored"@,
        "new"@,
        "old"@,
        "block_exploit"@,
        "being_updated"@,
        "old_generation"@,
    ]
}

/// The id of a category name: its position among `category_names()`.
pub open spec fn spec_category_id(name: Seq<char>) -> Option<int> {
    if exists|i: int| 0 <= i < 6 && category_names()[i] == name {
        Some(choose|i: int| 0 <= i < 6 && category_names()[i] == name)
    } else {
        None
    }
}

/// The category names, spelled out.
pub proof fn reveal_category_names()
    ensures
        category_names()[0] == seq!['e', 'x', 'p', 'l', 'o', 'r', 'e', 'd'],
        category_names()[1] == seq!['n', 'e', 'w'],
        category_names()[2] == seq!['o', 'l', 'd'],
        category_names()[3] == seq![
            'b', 'l', 'o', 'c', 'k', '_', 'e', 'x', 'p', 'l', 'o', 'i', 't',
        ],
        category_names()[4] == seq![
            'b', 'e', 'i', 'n', 'g', '_', 'u', 'p', 'd', 'a', 't', 'e', 'd',
        ],
        category_names()[5] == seq![
            'o', 'l', 'd', '_', 'g', 'e', 'n', 'e', 'r', 'a', 't', 'i', 'o', 'n',
        ],
        category_names().len() == 6,
{
    reveal_strlit("explored");
    reveal_strlit("new");
    reveal_strlit("old");
    reveal_strlit("block_exploit");
    reveal_strlit("being_updated");
    reveal_strlit("old_generation");
    assert(category_names()[0] =~= seq!['e', 'x', 'p', 'l', 'o', 'r', 'e', 'd']);
    assert(category_names()[1] =~= seq!['n', 'e', 'w']);
    assert(category_names()[2] =~= seq!['o', 'l', 'd']);
    assert(category_names()[3] =~= seq![
        'b', 'l', 'o', 'c', 'k', '_', 'e', 'x', 'p', 'l', 'o', 'i', 't',
    ]);
    assert(category_names()[4] =~= seq![
        'b', 'e', 'i', 'n', 'g', '_', 'u', 'p', 'd', 'a', 't', 'e', 'd',
    ]);
    assert(category_names()[5] =~= seq![
        'o', 'l', 'd', '_', 'g', 'e', 'n', 'e', 'r', 'a', 't', 'i', 'o', 'n',
    ]);
}

/// No two categories share a name.
pub proof fn lemma_category_names_distinct()
    ensures
        forall|i: int, j: int|
            0 <= i < 6 && 0 <= j < 6 && i != j ==> category_names()[i] != category_names()[j],
{
    reveal_category_names();
    assert forall|i: int, j: int|
        0 <= i < 6 && 0 <= j < 6 && i != j implies category_names()[i] != category_names()[j] by {
        let a = category_names()[i];
        let b = category_names()[j];
        if a.len() == b.len() {
            if a.len() == 3 {
                assert(a[0] != b[0]);
            } else {
                assert(a.len() == 13);
                assert(a[1] != b[1]);
            }
        }
    }
}

/// The numeric id of a category name, if it names one.
pub fn category_id(name: &str) -> (r: Option<i16>)
    ensures
        match spec_category_id(name@) {
            Some(i) => r == Some(i as i16),
            None => r is None,
        },
{
    proof {
        reveal_category_names();
        lemma_category_names_distinct();
    }
    let r = if same_text(name, "explored") {
        Some(0i16)
    } else if same_text(name, "new") {
        Some(1i16)
    } else if same_text(name, "old") {
        Some(2i16)
    } else if same_text(name, "block_exploit") {
        Some(3i16)
    } else if same_text(name, "being_updated") {
        Some(4i16)
    } else if same_text(name, "old_generation") {
        Some(5i16)
    } else {
        None
    };
    proof {
        reveal_strlit("explored");
        reveal_strlit("new");
        reveal_strlit("old");
        reveal_strlit("block_exploit");
        reveal_strlit("being_updated");
        reveal_strlit("old_generation");
        if let Some(k) = r {
            assert(category_names()[k as int] == name@);
        }
    }
    r
}

/// The name of a category id, if it is one.
pub fn category_name(id: i16) -> (r: Option<&'static str>)
    ensures
        0 <= id < 6 ==> r is Some && r->0@ == category_names()[id as int],
        !(0 <= id < 6) ==> r is None,
{
    proof {
        reveal_category_names();
        reveal_strlit("explored");
        reveal_strlit("new");
        reveal_strlit("old");
        reveal_strlit("block_exploit");
        reveal_strlit("being_updated");
        reveal_strlit("old_generation");
    }
    match id {
        0 => Some("explored"),
        1 => Some("new"),
        2 => Some("old"),
        3 => Some("block_exploit"),
        4 => Some("being_updated"),
        5 => Some("old_generation"),
        _ => None,
    }
}

/// Ids and names of categories correspond one to one.
pub proof fn lemma_category_roundtrip(i: int, name: Seq<char>)
    ensures
        0 <= i < 6 ==> spec_category_id(category_names()[i]) == Some(i),
        spec_category_id(name) matches Some(k) ==> 0 <= k < 6 && category_names()[k] == name,
{
    lemma_category_names_distinct();
    if 0 <= i < 6 {
        assert(exists|j: int| 0 <= j < 6 && category_names()[j] == category_names()[i]);
    }
}

/// The role of a new token when the request names none.
pub fn default_role() -> (r: String)
    ensures
        r@ == "member"@,
{
    "member".to_string()
}

// ---------------------------------------------------------------------------
// Request and response bodies
// ---------------------------------------------------------------------------

/// New chunks per category name, for one world and dimension. The names come
/// from the keys of one JSON object, so they are distinct
/// (`category_entries_distinct`); grouping does not rely on it.
pub struct ChunkPushRequest {
    pub world: String,
    pub dimension: String,
    pub categories: Vec<(String, Vec<[i32; 2]>)>,
}

/// No category name occurs twice among the pushed entries.
pub open spec fn category_entries_distinct(entries: Seq<(String, Vec<[i32; 2]>)>) -> bool {
    forall|i: int, j: int| 0 <= i < j < entries.len() ==> entries[i].0@ != entries[j].0@
}

pub struct ChunkPushResponse {
    pub seq: i64,
    pub applied: i64,
}

pub struct ChunkPullQuery {
    pub world: String,
    pub dim: String,
    pub since: i64,
    pub limit: Option<i64>,
}

pub struct ContainerDto {
    pub player: String,
    pub category: String,
    pub cx: i32,
    pub cz: i32,
    pub bitmap: String,
}

pub struct ChunkPullResponse {
    pub containers: Vec<ContainerDto>,
    pub cursor: i64,
    pub complete: bool,
}

pub struct WaypointDto {
    pub id: String,
    pub name: String,
    pub x: i32,
    pub y: i32,
    pub z: i32,
    pub dimensions: String,
    pub color: i32,
    pub icon: String,
    pub beacon: bool,
    pub deleted: bool,
}

pub struct WaypointPushRequest {
    pub world: String,
    pub waypoints: Vec<WaypointDto>,
}

pub struct WaypointPushResponse {
    pub seq: i64,
    pub applied: i64,
}

pub struct WaypointPullQuery {
    pub world: String,
    pub since: i64,
}

pub struct WaypointOut {
    pub id: String,
    pub name: String,
    pub x: i32,
    pub y: i32,
    pub z: i32,
    pub dimensions: String,
    pub color: i32,
    pub icon: String,
    pub beacon: bool,
    pub deleted: bool,
    pub author: String,
}

pub struct WaypointPullResponse {
    pub waypoints: Vec<WaypointOut>,
    pub cursor: i64,
}

pub struct CreateCrewRequest {
    pub name: String,
}

pub struct CrewDto {
    pub id: uuid::Uuid,
    pub name: String,
}

pub struct CreateTokenRequest {
    pub crew: String,
    pub player_name: String,
    pub role: String,
}

pub struct TokenCreated {
    pub id: uuid::Uuid,
    pub token: String,
    pub crew_id: uuid::Uuid,
    pub player_name: String,
    pub role: String,
}

/// A token as listed to admins: its stored hash, never the token in the clear.
pub struct TokenDto {
    pub id: uuid::Uuid,
    pub crew_id: uuid::Uuid,
    pub token_hash: String,
    pub player_name: String,
    pub role: String,
    pub revoked: bool,
}

pub struct DimensionStat {
    pub world: String,
    pub dimension: String,
    pub category: String,
    pub chunks: i64,
}

pub struct StatsResponse {
    pub crews: i64,
    pub tokens: i64,
    pub players: i64,
    pub waypoints: i64,
    pub total_chunks: i64,
    pub by_dimension: Vec<DimensionStat>,
}

} // verus!
