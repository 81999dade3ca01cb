use cartobase::admin::{
    admin_bootstrap, bootstrap_needed, crew_list, crew_name, dimension_stat, plan_token,
    revoke_outcome, stats_response, token_created, token_list,
};
use cartobase::auth::hash_token;
use cartobase::error::AppError;
use cartobase::models::CreateTokenRequest;
use uuid::Uuid;

fn req(crew: &str, player: &str, role: &str) -> CreateTokenRequest {
    CreateTokenRequest { crew: crew.into(), player_name: player.into(), role: role.into() }
}

#[test]
fn crew_name_is_trimmed_and_required() {
    assert_eq!(crew_name("  north  "), Ok("north".to_string()));
    assert_eq!(crew_name(" \t "), Err(AppError::BadRequest("crew name required".into())));
}

#[test]
fn token_plan_checks_player_then_crew() {
    assert_eq!(
        plan_token(&req("", " ", "admin")).err(),
        Some(AppError::BadRequest("player_name required".into()))
    );
    assert_eq!(
        plan_token(&req(" ", "alex", "admin")).err(),
        Some(AppError::BadRequest("crew name required".into()))
    );
    let p = plan_token(&req(" north ", " alex ", "admin")).unwrap();
    assert_eq!((p.crew.as_str(), p.player_name.as_str(), p.role.as_str()), ("north", "alex", "admin"));
}

#[test]
fn token_plan_role_is_admin_only_when_exact() {
    assert_eq!(plan_token(&req("c", "p", "Admin")).unwrap().role, "member");
    assert_eq!(plan_token(&req("c", "p", "root")).unwrap().role, "member");
    assert_eq!(plan_token(&req("c", "p", "member")).unwrap().role, "member");
}

#[test]
fn token_created_carries_plan() {
    let p = plan_token(&req("c", "p", "admin")).unwrap();
    let t = token_created(Uuid::from_u128(1), "tok".into(), Uuid::from_u128(2), p);
    assert_eq!(t.id, Uuid::from_u128(1));
    assert_eq!(t.crew_id, Uuid::from_u128(2));
    assert_eq!((t.token.as_str(), t.player_name.as_str(), t.role.as_str()), ("tok", "p", "admin"));
}

#[test]
fn revoke_of_nothing_is_not_found() {
    assert_eq!(revoke_outcome(0), Err(AppError::NotFound));
    assert_eq!(revoke_outcome(1), Ok(()));
}

#[test]
fn stats_name_unknown_categories() {
    assert_eq!(dimension_stat("w".into(), "d".into(), 2, 9).category, "old");
    assert_eq!(dimension_stat("w".into(), "d".into(), 17, 9).category, "unknown");
    let s = stats_response(1, 2, 3, 4, 5, vec![("w".into(), "d".into(), 1, 10), ("w".into(), "e".into(), -1, 11)]);
    assert_eq!((s.crews, s.tokens, s.players, s.waypoints, s.total_chunks), (1, 2, 3, 4, 5));
    assert_eq!(s.by_dimension.len(), 2);
    assert_eq!(s.by_dimension[0].category, "new");
    assert_eq!(s.by_dimension[1].category, "unknown");
    assert_eq!(s.by_dimension[1].chunks, 11);
    assert_eq!(s.by_dimension[1].dimension, "e");
}

#[test]
fn lists_keep_rows_in_order() {
    let crews = crew_list(vec![(Uuid::from_u128(1), "a".into()), (Uuid::from_u128(2), "b".into())]);
    assert_eq!(crews.iter().map(|c| c.name.as_str()).collect::<Vec<_>>(), vec!["a", "b"]);
    let h = hash_token("tok");
    let tokens = token_list(vec![(Uuid::from_u128(3), Uuid::from_u128(1), h.clone(), "p".into(), "admin".into(), true)]);
    assert_eq!(tokens.len(), 1);
    assert_eq!(tokens[0].id, Uuid::from_u128(3));
    assert_eq!(tokens[0].crew_id, Uuid::from_u128(1));
    assert_eq!(tokens[0].token_hash, h);
    assert_eq!((tokens[0].player_name.as_str(), tokens[0].role.as_str()), ("p", "admin"));
    assert!(tokens[0].revoked);
}

#[test]
fn bootstrap_runs_unless_admins_exist_without_configured_token() {
    assert!(bootstrap_needed(0, &None));
    assert!(!bootstrap_needed(2, &None));
    assert!(bootstrap_needed(2, &Some("t".into())));
}

#[test]
fn bootstrap_uses_configured_token_or_generates_one() {
    let a = admin_bootstrap(Some("secret".into()));
    assert!(!a.generated);
    assert_eq!(a.token, "secret");
    assert_eq!(a.hash, hash_token("secret"));
    let b = admin_bootstrap(None);
    assert!(b.generated);
    assert_eq!(b.token.len(), 64);
    assert_eq!(b.hash, hash_token(&b.token));
}
