use std::sync::Arc;

use ferristype::{generate_room_id, Client, GameData, Room, RoomError, ROOM_ID_LEN};
use tokio::sync::mpsc::unbounded_channel;
use tokio::sync::RwLock;

fn client() -> Client {
    let (tx, _rx) = unbounded_channel::<Result<warp::ws::Message, warp::Error>>();
    Client::new(tx)
}

fn is_url_safe(c: char) -> bool {
    c == '_' || c == '-' || c.is_ascii_digit() || c.is_ascii_lowercase() || c.is_ascii_uppercase()
}

#[test]
fn generated_id_is_url_safe_and_21_chars() {
    let id = generate_room_id();
    assert_eq!(ROOM_ID_LEN, 21);
    assert_eq!(id.chars().count(), 21);
    assert!(id.chars().all(is_url_safe));
    assert_ne!(generate_room_id(), id);
}

#[test]
fn create_then_first_join_gets_position_zero() {
    let mut game = GameData::new();
    let id = game.create_room().unwrap();
    assert_eq!(id.chars().count(), 21);
    assert!(id.chars().all(is_url_safe));
    assert_eq!(game.check_join(&id), Ok(()));
    assert_eq!(game.join_room(&id, client()), Ok(0));
    assert_eq!(game.member_count(&id), Some(1));
}

#[test]
fn room_exists_right_after_create() {
    let mut game = GameData::new();
    let id = game.create_room().unwrap();
    assert!(game.room_exists(&id));
    assert_eq!(game.member_count(&id), Some(0));
}

#[test]
fn join_unknown_room_is_rejected() {
    let mut game = GameData::new();
    let known = game.create_room().unwrap();
    let missing = "does-not-exist".to_string();
    assert!(!game.room_exists(&missing));
    assert_eq!(game.check_join(&missing), Err(RoomError::RoomNotFound));
    assert_eq!(game.join_room(&missing, client()), Err(RoomError::RoomNotFound));
    assert!(!game.room_exists(&missing));
    assert_eq!(game.member_count(&missing), None);
    assert_eq!(game.member_count(&known), Some(0));
}

#[test]
fn three_sequential_joins_get_zero_one_two() {
    let mut game = GameData::new();
    let id = game.create_room().unwrap();
    assert_eq!(game.join_room(&id, client()), Ok(0));
    assert_eq!(game.join_room(&id, client()), Ok(1));
    assert_eq!(game.join_room(&id, client()), Ok(2));
    assert_eq!(game.member_count(&id), Some(3));
}

#[test]
fn created_ids_are_pairwise_distinct() {
    let mut game = GameData::new();
    let mut ids: Vec<String> = Vec::new();
    for _ in 0..200 {
        ids.push(game.create_room().unwrap());
    }
    for i in 0..ids.len() {
        assert!(game.room_exists(&ids[i]));
        for j in (i + 1)..ids.len() {
            assert_ne!(ids[i], ids[j]);
        }
    }
}

#[test]
fn taken_id_is_never_overwritten() {
    let mut game = GameData::new();
    let id = "room-1".to_string();
    assert_eq!(game.insert_room(id.clone()), Ok(()));
    assert_eq!(game.join_room(&id, client()), Ok(0));
    assert_eq!(game.insert_room(id.clone()), Err(RoomError::IdentityCollision));
    assert_eq!(game.member_count(&id), Some(1));
    assert_eq!(game.join_room(&id, client()), Ok(1));
}

#[test]
fn joins_on_other_rooms_do_not_disturb_positions() {
    let mut game = GameData::new();
    let a = "a".to_string();
    let b = "b".to_string();
    game.insert_room(a.clone()).unwrap();
    game.insert_room(b.clone()).unwrap();
    assert_eq!(game.join_room(&a, client()), Ok(0));
    assert_eq!(game.join_room(&b, client()), Ok(0));
    assert_eq!(game.join_room(&a, client()), Ok(1));
    assert_eq!(game.join_room(&b, client()), Ok(1));
    assert_eq!(game.join_room(&b, client()), Ok(2));
    assert_eq!(game.member_count(&a), Some(2));
    assert_eq!(game.member_count(&b), Some(3));
}

#[test]
fn room_assigns_positions_in_join_order() {
    let mut room = Room::new();
    assert_eq!(room.member_count(), 0);
    assert_eq!(room.add_client(client()), 0);
    assert_eq!(room.add_client(client()), 1);
    assert_eq!(room.member_count(), 2);
}

#[test]
fn leaving_never_frees_a_position() {
    let mut game = GameData::new();
    let id = game.create_room().unwrap();
    assert_eq!(game.join_room(&id, client()), Ok(0));
    assert_eq!(game.join_room(&id, client()), Ok(1));
    assert_eq!(game.join_room(&id, client()), Ok(2));
    let gone = game.leave_room(&id, 1).unwrap();
    assert_eq!(gone.position(), 1);
    assert_eq!(game.member_count(&id), Some(2));
    assert_eq!(game.join_room(&id, client()), Ok(3));
    assert_eq!(game.member_count(&id), Some(3));
    assert!(matches!(game.leave_room(&id, 1), Err(RoomError::NotAMember)));
    assert!(matches!(game.leave_room(&id, 7), Err(RoomError::NotAMember)));
    assert_eq!(game.member_count(&id), Some(3));
}

#[test]
fn leave_unknown_room_is_rejected() {
    let mut game = GameData::new();
    let missing = "nowhere".to_string();
    assert!(matches!(game.leave_room(&missing, 0), Err(RoomError::RoomNotFound)));
    assert_eq!(game.room_count(), 0);
}

#[test]
fn joined_member_keeps_its_own_channel() {
    let mut game = GameData::new();
    let id = game.create_room().unwrap();
    let (tx0, _rx0) = unbounded_channel::<Result<warp::ws::Message, warp::Error>>();
    let (tx1, _rx1) = unbounded_channel::<Result<warp::ws::Message, warp::Error>>();
    let probe0 = tx0.clone();
    let probe1 = tx1.clone();
    assert_eq!(game.join_room(&id, Client::new(tx0)), Ok(0));
    assert_eq!(game.join_room(&id, Client::new(tx1)), Ok(1));
    let second = game.leave_room(&id, 1).unwrap();
    assert!(second.sender().same_channel(&probe1));
    assert!(!second.sender().same_channel(&probe0));
    let first = game.leave_room(&id, 0).unwrap();
    assert!(first.sender().same_channel(&probe0));
    assert_eq!(game.member_count(&id), Some(0));
}

#[test]
fn room_count_grows_by_one_per_creation() {
    let mut game = GameData::new();
    assert_eq!(game.room_count(), 0);
    let a = game.create_room().unwrap();
    assert_eq!(game.room_count(), 1);
    let _b = game.create_room().unwrap();
    assert_eq!(game.room_count(), 2);
    assert_eq!(game.join_room(&a, client()), Ok(0));
    assert_eq!(game.room_count(), 2);
}

#[test]
fn room_removes_member_by_position() {
    let mut room = Room::new();
    assert_eq!(room.next_position(), 0);
    assert_eq!(room.add_client(client()), 0);
    assert_eq!(room.add_client(client()), 1);
    assert_eq!(room.remove_member(0).map(|c| c.position()), Some(0));
    assert!(room.remove_member(0).is_none());
    assert_eq!(room.member_count(), 1);
    assert_eq!(room.next_position(), 2);
    assert_eq!(room.add_client(client()), 2);
}

#[test]
fn new_client_has_position_zero() {
    let (tx, rx) = unbounded_channel::<Result<warp::ws::Message, warp::Error>>();
    let c = Client::new(tx);
    assert_eq!(c.position(), 0);
    assert!(!c.sender().is_closed());
    drop(rx);
    assert!(c.sender().is_closed());
}

#[test]
fn concurrent_joins_lose_nothing_and_leave_no_gaps() {
    let runtime = tokio::runtime::Builder::new_multi_thread()
        .worker_threads(4)
        .build()
        .unwrap();
    let n: usize = 64;
    let (positions, count) = runtime.block_on(async move {
        let game = Arc::new(RwLock::new(GameData::new()));
        let id = game.write().await.create_room().unwrap();
        let mut handles = Vec::new();
        for _ in 0..n {
            let game = game.clone();
            let id = id.clone();
            handles.push(tokio::spawn(async move {
                game.write().await.join_room(&id, client()).unwrap()
            }));
        }
        let mut positions: Vec<usize> = Vec::new();
        for h in handles {
            positions.push(h.await.unwrap());
        }
        let count = game.read().await.member_count(&id);
        (positions, count)
    });
    assert_eq!(count, Some(n));
    let mut sorted = positions.clone();
    sorted.sort();
    assert_eq!(sorted, (0..n).collect::<Vec<usize>>());
}
