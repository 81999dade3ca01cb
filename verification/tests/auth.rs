use cartobase::auth::{
    bearer, caller_from_row, credential_hash, generate_token, hash_token, require_admin, slug,
    whoami, AuthCtx,
};
use cartobase::error::AppError;
use uuid::Uuid;

fn ctx(role: &str) -> AuthCtx {
    AuthCtx {
        token_id: Uuid::from_u128(1),
        crew_id: Uuid::from_u128(2),
        player_name: "  Steve The Miner ".to_string(),
        role: role.to_string(),
    }
}

#[test]
fn slug_keeps_safe_ascii_and_replaces_the_rest() {
    assert_eq!(slug("Steve"), "Steve");
    assert_eq!(slug("  Steve The Miner "), "Steve_The_Miner");
    assert_eq!(slug("a.b-c_d"), "a.b-c_d");
    assert_eq!(slug("héllo/wörld"), "h_llo_w_rld");
    assert_eq!(slug("x\u{3000}y"), "x_y");
}

#[test]
fn slug_of_blank_name_is_player() {
    assert_eq!(slug(""), "player");
    assert_eq!(slug(" \t\n "), "player");
    assert_eq!(slug("\u{a0}\u{2003}"), "player");
}

#[test]
fn slug_is_idempotent() {
    for name in ["", " a b ", "Ünïcode", "ok.name", "\u{85}x\u{85}"] {
        let s = slug(name);
        assert_eq!(slug(&s), s);
    }
}

#[test]
fn hash_token_is_hex_sha256_of_trimmed_token() {
    assert_eq!(
        hash_token("abc"),
        "ba7816bf8f01cfea414140de5dae2223b00361a396177a9cb410ff61f20015ad"
    );
    assert_eq!(hash_token("  abc\n"), hash_token("abc"));
    assert_eq!(
        hash_token("héllo"),
        "3c48591d8d098a4538f5e013dfcf406e948eac4d3277b10bf614e295d6068179"
    );
}

#[test]
fn generated_tokens_are_64_lowercase_hex_digits() {
    let a = generate_token();
    let b = generate_token();
    assert_eq!(a.len(), 64);
    assert!(a.chars().all(|c| c.is_ascii_digit() || ('a'..='f').contains(&c)));
    assert_ne!(a, b);
    assert_eq!(hash_token(&a).len(), 64);
}

#[test]
fn bearer_accepts_scheme_in_any_case() {
    assert_eq!(bearer("Bearer tok"), Some("tok".to_string()));
    assert_eq!(bearer("bEaReR   tok  "), Some("tok".to_string()));
    assert_eq!(bearer("BEARER a b"), Some("a b".to_string()));
    assert_eq!(bearer("Bearer "), Some(String::new()));
}

#[test]
fn bearer_rejects_other_schemes_and_missing_space() {
    assert_eq!(bearer("Basic abc"), None);
    assert_eq!(bearer("Bearertok"), None);
    assert_eq!(bearer(" Bearer tok"), None);
    assert_eq!(bearer(""), None);
}

#[test]
fn is_admin_needs_exact_role() {
    assert!(ctx("admin").is_admin());
    assert!(!ctx("Admin").is_admin());
    assert!(!ctx("member").is_admin());
}

#[test]
fn require_admin_forbids_members() {
    assert!(require_admin(ctx("admin")).is_ok());
    assert_eq!(require_admin(ctx("member")).err(), Some(AppError::Forbidden));
}

#[test]
fn credential_hash_needs_a_bearer_token() {
    assert_eq!(credential_hash(None), Err(AppError::Unauthorized));
    assert_eq!(credential_hash(Some("Basic x")), Err(AppError::Unauthorized));
    assert_eq!(
        credential_hash(Some("Bearer abc")),
        Ok("ba7816bf8f01cfea414140de5dae2223b00361a396177a9cb410ff61f20015ad".to_string())
    );
}

#[test]
fn caller_from_row_maps_missing_row_to_unauthorized() {
    assert_eq!(caller_from_row(None).err(), Some(AppError::Unauthorized));
    let c = caller_from_row(Some((
        Uuid::from_u128(9),
        Uuid::from_u128(8),
        "alex".to_string(),
        "member".to_string(),
    )))
    .unwrap();
    assert_eq!(c.token_id, Uuid::from_u128(9));
    assert_eq!(c.crew_id, Uuid::from_u128(8));
    assert_eq!(c.player_name, "alex");
    assert_eq!(c.role, "member");
}

#[test]
fn whoami_reports_name_slug_crew_and_role() {
    let w = whoami(&ctx("member"));
    assert_eq!(w.player, "  Steve The Miner ");
    assert_eq!(w.slug, "Steve_The_Miner");
    assert_eq!(w.crew_id, Uuid::from_u128(2));
    assert_eq!(w.role, "member");
}

#[test]
fn minted_token_sent_as_bearer_finds_its_stored_hash() {
    let token = generate_token();
    let stored = hash_token(&token);
    let header = format!("Bearer {}", token);
    assert_eq!(bearer(&header), Some(token.clone()));
    assert_eq!(credential_hash(Some(&header)), Ok(stored));
}
