use cartobase::chunkmap::{decode_container, empty_bitmap, set_bit};
use cartobase::error::AppError;
use cartobase::models::{ChunkPushRequest, WaypointDto, WaypointOut, WaypointPushRequest};
use cartobase::sync::{
    build_chunk_pull, build_waypoint_pull, chunk_pull_limit, container_dto, group_chunks,
    merge_container, validate_chunk_push, validate_waypoint_push, waypoint_accepted, ContainerRow,
    PushTally, WaypointRow,
};

fn push(world: &str, dim: &str) -> ChunkPushRequest {
    ChunkPushRequest { world: world.into(), dimension: dim.into(), categories: Vec::new() }
}

#[test]
fn chunk_push_needs_world_and_dimension() {
    assert!(validate_chunk_push(&push("w", "overworld")).is_ok());
    let msg = AppError::BadRequest("world and dimension required".into());
    assert_eq!(validate_chunk_push(&push("", "overworld")), Err(msg.clone()));
    assert_eq!(validate_chunk_push(&push("w", "")), Err(msg));
}

#[test]
fn group_chunks_splits_by_category_and_container() {
    let entries = vec![
        ("explored".to_string(), vec![[0, 0], [40, 0], [1, 1]]),
        ("bogus".to_string(), vec![[5, 5]]),
        ("new".to_string(), vec![[0, 0]]),
        ("explored".to_string(), vec![[-1, 0], [2, 2]]),
    ];
    let groups = group_chunks(&entries);
    let got: Vec<(i16, i32, i32, Vec<[i32; 2]>)> = groups
        .into_iter()
        .map(|g| (g.category, g.container_x, g.container_z, g.coords))
        .collect();
    assert_eq!(
        got,
        vec![
            (0, 0, 0, vec![[0, 0], [1, 1], [2, 2]]),
            (0, 1, 0, vec![[40, 0]]),
            (1, 0, 0, vec![[0, 0]]),
            (0, -1, 0, vec![[-1, 0]]),
        ]
    );
}

#[test]
fn group_chunks_of_nothing_is_empty() {
    assert!(group_chunks(&Vec::new()).is_empty());
    assert!(group_chunks(&vec![("old".to_string(), Vec::new())]).is_empty());
}

#[test]
fn merge_counts_only_new_chunks() {
    let mut stored = empty_bitmap();
    set_bit(&mut stored, 3, 4);
    let m = merge_container(Some(stored), &vec![[3, 4], [5, 6], [5, 6], [7, 8]]);
    assert_eq!(m.newly, 2);
    assert_eq!(m.count, 3);
    let mut out = Vec::new();
    decode_container(0, 0, &m.bitmap, &mut out);
    assert_eq!(out, vec![[3, 4], [5, 6], [7, 8]]);
}

#[test]
fn merge_normalizes_stored_size() {
    let m = merge_container(None, &vec![[0, 0]]);
    assert_eq!(m.bitmap.len(), 128);
    assert_eq!((m.newly, m.count), (1, 1));
    let m = merge_container(Some(vec![0xff]), &vec![]);
    assert_eq!(m.bitmap.len(), 128);
    assert_eq!(m.bitmap[0], 0xff);
    assert_eq!((m.newly, m.count), (0, 8));
    let mut long = vec![0u8; 130];
    long[129] = 0xff;
    let m = merge_container(Some(long), &vec![]);
    assert_eq!(m.bitmap.len(), 128);
    assert_eq!(m.count, 0);
}

#[test]
fn tally_sums_applied_and_keeps_highest_seq() {
    let mut t = PushTally::new();
    t.record(3, 10);
    t.record(2, 7);
    t.record(1, 12);
    assert_eq!((t.applied, t.max_seq), (6, 12));
    let t = PushTally::new();
    assert_eq!((t.applied, t.max_seq), (0, 0));
}

#[test]
fn pull_limit_defaults_and_clamps() {
    assert_eq!(chunk_pull_limit(None), 5000);
    assert_eq!(chunk_pull_limit(Some(0)), 1);
    assert_eq!(chunk_pull_limit(Some(-5)), 1);
    assert_eq!(chunk_pull_limit(Some(123)), 123);
    assert_eq!(chunk_pull_limit(Some(99999)), 20000);
}

fn row(player: &str, category: i16, seq: i64, bitmap: Vec<u8>) -> ContainerRow {
    ContainerRow { player: player.into(), category, cx: 1, cz: -2, bitmap, seq }
}

#[test]
fn chunk_pull_skips_unknown_categories_but_advances_cursor() {
    let rows = vec![row("a", 0, 5, vec![0, 1, 2, 255]), row("b", 9, 8, vec![]), row("c", 5, 7, vec![])];
    let r = build_chunk_pull(&rows, 3, 3);
    assert_eq!(r.cursor, 8);
    assert!(!r.complete);
    assert_eq!(r.containers.len(), 2);
    assert_eq!(r.containers[0].player, "a");
    assert_eq!(r.containers[0].category, "explored");
    assert_eq!((r.containers[0].cx, r.containers[0].cz), (1, -2));
    assert_eq!(r.containers[0].bitmap, "AAEC/w==");
    assert_eq!(r.containers[1].category, "old_generation");
    assert_eq!(r.containers[1].bitmap, "");
}

#[test]
fn chunk_pull_of_nothing_keeps_cursor_and_is_complete() {
    let r = build_chunk_pull(&Vec::new(), 42, 1);
    assert_eq!(r.cursor, 42);
    assert!(r.complete);
    assert!(r.containers.is_empty());
}

#[test]
fn container_dto_needs_known_category() {
    assert!(container_dto("p".into(), 6, 0, 0, String::new()).is_none());
    let d = container_dto("p".into(), 3, 4, 5, "xx".into()).unwrap();
    assert_eq!((d.player.as_str(), d.category.as_str(), d.cx, d.cz, d.bitmap.as_str()), ("p", "block_exploit", 4, 5, "xx"));
}

fn wp(id: &str) -> WaypointDto {
    WaypointDto {
        id: id.into(),
        name: String::new(),
        x: 1,
        y: 2,
        z: 3,
        dimensions: String::new(),
        color: 0,
        icon: String::new(),
        beacon: false,
        deleted: false,
    }
}

#[test]
fn waypoint_push_needs_world_and_ids() {
    let ok = WaypointPushRequest { world: "w".into(), waypoints: vec![] };
    assert!(validate_waypoint_push(&ok).is_ok());
    let bad = WaypointPushRequest { world: "".into(), waypoints: vec![] };
    assert_eq!(validate_waypoint_push(&bad), Err(AppError::BadRequest("world required".into())));
    assert!(waypoint_accepted(&wp("id1")));
    assert!(!waypoint_accepted(&wp("")));
}

fn out(id: &str) -> WaypointOut {
    WaypointOut {
        id: id.into(),
        name: "n".into(),
        x: 1,
        y: 2,
        z: 3,
        dimensions: "d".into(),
        color: 4,
        icon: "i".into(),
        beacon: true,
        deleted: false,
        author: "a".into(),
    }
}

#[test]
fn waypoint_pull_keeps_all_rows_and_highest_seq() {
    let rows = vec![WaypointRow { waypoint: out("x"), seq: 4 }, WaypointRow { waypoint: out("y"), seq: 2 }];
    let r = build_waypoint_pull(rows, 1);
    assert_eq!(r.cursor, 4);
    let ids: Vec<&str> = r.waypoints.iter().map(|w| w.id.as_str()).collect();
    assert_eq!(ids, vec!["x", "y"]);
    assert_eq!(build_waypoint_pull(Vec::new(), 9).cursor, 9);
}

#[test]
fn merging_the_same_chunks_again_applies_nothing() {
    let coords = vec![[64, 64], [65, 95], [95, 64]];
    let first = merge_container(None, &coords);
    assert_eq!(first.newly, 3);
    let again = merge_container(Some(first.bitmap.clone()), &coords);
    assert_eq!(again.newly, 0);
    assert_eq!(again.count, 3);
    assert_eq!(again.bitmap, first.bitmap);
}

#[test]
fn pushed_chunks_come_back_from_their_containers() {
    let entries = vec![
        ("explored".to_string(), vec![[-1, -1], [31, 31], [32, 0], [-33, 5], [1000, -2000]]),
        ("old".to_string(), vec![[-1, -1]]),
    ];
    let mut back: Vec<(i16, [i32; 2])> = Vec::new();
    for g in group_chunks(&entries) {
        let m = merge_container(None, &g.coords);
        assert_eq!(m.newly as usize, g.coords.len());
        let mut out = Vec::new();
        decode_container(g.container_x, g.container_z, &m.bitmap, &mut out);
        back.extend(out.into_iter().map(|c| (g.category, c)));
    }
    back.sort();
    let mut expected = vec![
        (0, [-1, -1]),
        (0, [31, 31]),
        (0, [32, 0]),
        (0, [-33, 5]),
        (0, [1000, -2000]),
        (2, [-1, -1]),
    ];
    expected.sort();
    assert_eq!(back, expected);
}

#[test]
fn only_changed_containers_need_writing() {
    let first = merge_container(None, &vec![[1, 1]]);
    assert!(first.needs_write());
    let again = merge_container(Some(first.bitmap), &vec![[1, 1]]);
    assert!(!again.needs_write());
}
