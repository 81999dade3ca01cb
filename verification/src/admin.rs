use vstd::prelude::*;
use crate::auth::{generate_token, hash_token, hex_lower, is_hex_token, spec_hash_token};
use crate::error::AppError;
use crate::models::{
    category_name, category_names, lemma_category_roundtrip, reveal_category_names, spec_category_id, CreateTokenRequest, CrewDto, DimensionStat, StatsResponse,
    TokenCreated, TokenDto,
};
use crate::text::{same_text, to_owned_string, trim, trimmed};

verus! {

broadcast use vstd::string::group_string_axioms;

// ---------------------------------------------------------------------------
// Crews and tokens
// ---------------------------------------------------------------------------

/// The name of a crew to create or join: the trimmed input, which must not be empty.
pub fn crew_name(raw: &str) -> (r: Result<String, AppError>)
    ensures
        trimmed(raw@).len() > 0 ==> r is Ok && r->Ok_0@ == trimmed(raw@),
        trimmed(raw@).len() == 0 ==> (r matches Err(AppError::BadRequest(m)) && m@
            == "crew name required"@),
{
    let name = trim(raw);
    if name.is_empty() {
        return Err(AppError::BadRequest("crew name required".to_string()));
    }
    Ok(to_owned_string(name))
}

/// The role of a new token: `admin` when asked for exactly, else `member`.
pub open spec fn spec_token_role(requested: Seq<char>) -> Seq<char> {
    if requested == "admin"@ {
        "admin"@
    } else {
        "member"@
    }
}

/// What a token request asks to be created.
pub struct TokenPlan {
    pub crew: String,
    pub player_name: String,
    pub role: String,
}

/// Checks a token request: the trimmed player name must not be empty, then the
/// trimmed crew name must not be empty.
pub fn plan_token(req: &CreateTokenRequest) -> (r: Result<TokenPlan, AppError>)
    ensures
        trimmed(req.player_name@).len() == 0 ==> (r matches Err(AppError::BadRequest(m)) && m@
            == "player_name required"@),
        trimmed(req.player_name@).len() > 0 && trimmed(req.crew@).len() == 0 ==> (r matches Err(
            AppError::BadRequest(m),
        ) && m@ == "crew name required"@),
        trimmed(req.player_name@).len() > 0 && trimmed(req.crew@).len() > 0 ==> (r matches Ok(p)
            && p.player_name@ == trimmed(req.player_name@) && p.crew@ == trimmed(req.crew@)
            && p.role@ == spec_token_role(req.role@)),
{
    let player_name = trim(req.player_name.as_str());
    if player_name.is_empty() {
        return Err(AppError::BadRequest("player_name required".to_string()));
    }
    let role = if same_text(req.role.as_str(), "admin") {
        "admin".to_string()
    } else {
        "member".to_string()
    };
    let crew = match crew_name(req.crew.as_str()) {
        Ok(c) => c,
        Err(e) => {
            return Err(e);
        },
    };
    Ok(TokenPlan { crew, player_name: to_owned_string(player_name), role })
}

/// The answer to a token request, holding the token in the clear.
pub fn token_created(id: uuid::Uuid, token: String, crew_id: uuid::Uuid, plan: TokenPlan) -> (t:
    TokenCreated)
    ensures
        t.id == id,
        t.token == token,
        t.crew_id == crew_id,
        t.player_name == plan.player_name,
        t.role == plan.role,
{
    TokenCreated { id, token, crew_id, player_name: plan.player_name, role: plan.role }
}

/// A revoke that touched no token row addresses no token.
pub fn revoke_outcome(rows_affected: u64) -> (r: Result<(), AppError>)
    ensures
        rows_affected == 0 <==> r == Err::<(), AppError>(AppError::NotFound),
        rows_affected != 0 <==> r is Ok,
{
    if rows_affected == 0 {
        Err(AppError::NotFound)
    } else {
        Ok(())
    }
}

/// Crews as listed.
pub fn crew_list(rows: Vec<(uuid::Uuid, String)>) -> (crews: Vec<CrewDto>)
    ensures
        crews@.len() == rows@.len(),
        forall|k: int|
            0 <= k < rows@.len() ==> (#[trigger] crews@[k]).id == rows@[k].0 && crews@[k].name
                == rows@[k].1,
{
    let ghost all = rows@;
    let mut crews: Vec<CrewDto> = Vec::new();
    for r in it: rows.into_iter()
        invariant
            all == it.seq(),
            crews@.len() == it.index(),
            it.index() <= all.len(),
            forall|k: int|
                0 <= k < crews@.len() ==> (#[trigger] crews@[k]).id == all[k].0 && crews@[k].name
                    == all[k].1,
    {
        let (id, name) = r;
        crews.push(CrewDto { id, name });
    }
    crews
}

/// A stored token row: id, crew, token hash, player name, role, revoked.
pub type TokenRow = (uuid::Uuid, uuid::Uuid, String, String, String, bool);

/// Tokens as listed: each with its hash, never the token itself.
pub fn token_list(rows: Vec<TokenRow>) -> (tokens: Vec<TokenDto>)
    ensures
        tokens@.len() == rows@.len(),
        forall|k: int|
            0 <= k < rows@.len() ==> {
                &&& (#[trigger] tokens@[k]).id == rows@[k].0
                &&& tokens@[k].crew_id == rows@[k].1
                &&& tokens@[k].token_hash == rows@[k].2
                &&& tokens@[k].player_name == rows@[k].3
                &&& tokens@[k].role == rows@[k].4
                &&& tokens@[k].revoked == rows@[k].5
            },
{
    let ghost all = rows@;
    let mut tokens: Vec<TokenDto> = Vec::new();
    for r in it: rows.into_iter()
        invariant
            all == it.seq(),
            tokens@.len() == it.index(),
            it.index() <= all.len(),
            forall|k: int|
                0 <= k < tokens@.len() ==> {
                    &&& (#[trigger] tokens@[k]).id == all[k].0
                    &&& tokens@[k].crew_id == all[k].1
                    &&& tokens@[k].token_hash == all[k].2
                    &&& tokens@[k].player_name == all[k].3
                    &&& tokens@[k].role == all[k].4
                    &&& tokens@[k].revoked == all[k].5
                },
    {
        let (id, crew_id, token_hash, player_name, role, revoked) = r;
        tokens.push(TokenDto { id, crew_id, token_hash, player_name, role, revoked });
    }
    tokens
}

// ---------------------------------------------------------------------------
// Statistics
// ---------------------------------------------------------------------------

/// The category name of a statistics row: its name, or `unknown`.
pub open spec fn stat_category(id: i16) -> Seq<char> {
    if 0 <= id < 6 {
        category_names()[id as int]
    } else {
        "unknown"@
    }
}

/// A statistics row is labelled with the name of its category id: the label
/// of a known id names that id back, and any other id is `unknown`.
pub proof fn lemma_stat_category_names_its_id(id: i16)
    ensures
        0 <= id < 6 ==> spec_category_id(stat_category(id)) == Some(id as int),
        !(0 <= id < 6) ==> stat_category(id) == seq!['u', 'n', 'k', 'n', 'o', 'w', 'n'],
        id == 0 ==> stat_category(id) == seq!['e', 'x', 'p', 'l', 'o', 'r', 'e', 'd'],
        id == 1 ==> stat_category(id) == seq!['n', 'e', 'w'],
        id == 2 ==> stat_category(id) == seq!['o', 'l', 'd'],
        id == 3 ==> stat_category(id) == seq![
            'b', 'l', 'o', 'c', 'k', '_', 'e', 'x', 'p', 'l', 'o', 'i', 't',
        ],
        id == 4 ==> stat_category(id) == seq![
            'b', 'e', 'i', 'n', 'g', '_', 'u', 'p', 'd', 'a', 't', 'e', 'd',
        ],
        id == 5 ==> stat_category(id) == seq![
            'o', 'l', 'd', '_', 'g', 'e', 'n', 'e', 'r', 'a', 't', 'i', 'o', 'n',
        ],
{
    reveal_category_names();
    lemma_category_roundtrip(id as int, stat_category(id));
    reveal_strlit("unknown");
    assert("unknown"@ =~= seq!['u', 'n', 'k', 'n', 'o', 'w', 'n']);
}

/// One row of the chunk statistics.
pub fn dimension_stat(world: String, dimension: String, category: i16, chunks: i64) -> (d:
    DimensionStat)
    ensures
        d.world == world,
        d.dimension == dimension,
        d.category@ == stat_category(category),
        d.chunks == chunks,
{
    let name = match category_name(category) {
        Some(n) => n,
        None => "unknown",
    };
    DimensionStat { world, dimension, category: name.to_string(), chunks }
}

/// The statistics answer from the counts and the per-dimension rows.
pub fn stats_response(
    crews: i64,
    tokens: i64,
    players: i64,
    waypoints: i64,
    total_chunks: i64,
    rows: Vec<(String, String, i16, i64)>,
) -> (s: StatsResponse)
    ensures
        s.crews == crews,
        s.tokens == tokens,
        s.players == players,
        s.waypoints == waypoints,
        s.total_chunks == total_chunks,
        s.by_dimension@.len() == rows@.len(),
        forall|k: int|
            0 <= k < rows@.len() ==> {
                &&& (#[trigger] s.by_dimension@[k]).world == rows@[k].0
                &&& s.by_dimension@[k].dimension == rows@[k].1
                &&& s.by_dimension@[k].category@ == stat_category(rows@[k].2)
                &&& s.by_dimension@[k].chunks == rows@[k].3
            },
{
    let ghost all = rows@;
    let mut by_dimension: Vec<DimensionStat> = Vec::new();
    for r in it: rows.into_iter()
        invariant
            all == it.seq(),
            by_dimension@.len() == it.index(),
            it.index() <= all.len(),
            forall|k: int|
                0 <= k < by_dimension@.len() ==> {
                    &&& (#[trigger] by_dimension@[k]).world == all[k].0
                    &&& by_dimension@[k].dimension == all[k].1
                    &&& by_dimension@[k].category@ == stat_category(all[k].2)
                    &&& by_dimension@[k].chunks == all[k].3
                },
    {
        let (world, dimension, cat, chunks) = r;
        by_dimension.push(dimension_stat(world, dimension, cat, chunks));
    }
    StatsResponse { crews, tokens, players, waypoints, total_chunks, by_dimension }
}

// ---------------------------------------------------------------------------
// Admin bootstrap at start-up
// ---------------------------------------------------------------------------

/// Start-up ensures an admin token unless admins exist and none is configured.
pub fn bootstrap_needed(active_admins: i64, admin_token: &Option<String>) -> (b: bool)
    ensures
        b == !(active_admins > 0 && admin_token is None),
{
    !(active_admins > 0 && admin_token.is_none())
}

/// The admin token that start-up stores, with its hash.
pub struct AdminBootstrap {
    pub token: String,
    pub hash: String,
    pub generated: bool,
}

/// The configured admin token, or a freshly generated one, and its hash.
pub fn admin_bootstrap(admin_token: Option<String>) -> (a: AdminBootstrap)
    ensures
        a.generated == admin_token is None,
        admin_token matches Some(t) ==> a.token == t,
        admin_token is None ==> exists|b: Seq<u8>| b.len() == 32 && a.token@ == hex_lower(b),
        a.hash@ == spec_hash_token(a.token@),
        is_hex_token(a.hash@),
{
    let generated = admin_token.is_none();
    let token = match admin_token {
        Some(t) => t,
        None => generate_token(),
    };
    let hash = hash_token(token.as_str());
    AdminBootstrap { token, hash, generated }
}

} // verus!
