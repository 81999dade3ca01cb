use cartobase::config::Config;
use cartobase::models::{category_id, category_name, default_role};

#[test]
fn category_ids_and_names_correspond() {
    let names = ["explored", "new", "old", "block_exploit", "being_updated", "old_generation"];
    for (i, n) in names.iter().enumerate() {
        assert_eq!(category_id(n), Some(i as i16));
        assert_eq!(category_name(i as i16), Some(*n));
    }
}

#[test]
fn unknown_categories_have_no_id_or_name() {
    assert_eq!(category_id("Explored"), None);
    assert_eq!(category_id(""), None);
    assert_eq!(category_id("olds"), None);
    assert_eq!(category_name(6), None);
    assert_eq!(category_name(-1), None);
}

#[test]
fn default_role_is_member() {
    assert_eq!(default_role(), "member");
}

#[test]
fn config_requires_database_url() {
    assert_eq!(
        Config::from_values(None, None, None, None).err(),
        Some("DATABASE_URL is required".to_string())
    );
}

#[test]
fn config_defaults() {
    let c = Config::from_values(Some("postgres://x".into()), None, None, None).unwrap();
    assert_eq!(c.database_url, "postgres://x");
    assert_eq!(c.bind_addr, "0.0.0.0:8080");
    assert_eq!(c.admin_token, None);
    assert_eq!(c.admin_crew, "default");
}

#[test]
fn config_ignores_blank_admin_token() {
    let c = Config::from_values(
        Some("db".into()),
        Some("127.0.0.1:1".into()),
        Some("  \t".into()),
        Some("crew".into()),
    )
    .unwrap();
    assert_eq!(c.bind_addr, "127.0.0.1:1");
    assert_eq!(c.admin_token, None);
    assert_eq!(c.admin_crew, "crew");
    let d = Config::from_values(Some("db".into()), None, Some(" tok ".into()), None).unwrap();
    assert_eq!(d.admin_token, Some(" tok ".to_string()));
}
