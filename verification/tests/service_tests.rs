//! End-to-end service flows over an in-memory store.

use std::collections::HashMap;

use fooskill::merge::{MergeCtx, Mergeable};
use fooskill::player::Player;
use fooskill::skill_base::{
    create_game, create_user, get_leaderboard, list_games_window, query_user, read_games,
    read_users, Cmd, Error, Game, GameId, GroupId, User, UserId, UserStoreCtx,
};
use fooskill::skill_base::{
    game_key, games_key, group_key_prefix, name_index_entry, name_index_range, query_user_index,
    user_games_key, user_id_key, user_key, user_name_index_key,
};
use fooskill::tx::{tx_step, TxEvent, TxState};
use fooskill::Scalar;

/// Floating-point scalar for the rating computations.
#[derive(Clone, Copy, PartialEq, Debug)]
struct Fp(f64);

impl Scalar for Fp {
    fn add(self, o: Self) -> Self {
        Fp(self.0 + o.0)
    }

    fn sub(self, o: Self) -> Self {
        Fp(self.0 - o.0)
    }

    fn mul(self, o: Self) -> Self {
        Fp(self.0 * o.0)
    }

    fn div(self, o: Self) -> Self {
        Fp(self.0 / o.0)
    }

    fn neg(self) -> Self {
        Fp(-self.0)
    }

    fn sqrt(self) -> Self {
        Fp(self.0.sqrt())
    }

    fn exp(self) -> Self {
        Fp(self.0.exp())
    }

    fn erf(self) -> Self {
        Fp(libm::erf(self.0))
    }

    fn le(self, o: Self) -> bool {
        self.0 <= o.0
    }

    fn ratio(n: i64, d: i64) -> Self {
        Fp(n as f64 / d as f64)
    }

    fn pi() -> Self {
        Fp(std::f64::consts::PI)
    }
}

type StoredNode = (String, u64, String, String, Player<Fp>);

/// Node source reading a snapshot of the committed user records.
struct Snapshot {
    nodes: HashMap<String, StoredNode>,
}

impl MergeCtx for Snapshot {
    type Index = UserId;
    type Item = User<Fp>;

    fn get_node(&mut self, index: &UserId) -> Option<Mergeable<UserId, User<Fp>>> {
        self.nodes.get(index.as_str()).map(|(parent, rank, uid, name, player)| {
            Mergeable::from_parts(
                UserId::new(parent.clone()),
                *rank,
                User::new(UserId::new(uid.clone()), name.clone(), *player),
            )
        })
    }

    fn set_node(&mut self, index: &UserId, item: Mergeable<UserId, User<Fp>>) {
        let parent = item.parent_index().as_str().to_string();
        let rank = item.rank();
        let user = item.item();
        self.nodes.insert(
            index.as_str().to_string(),
            (
                parent,
                rank,
                user.id().as_str().to_string(),
                user.name().to_string(),
                *user.player(),
            ),
        );
    }
}

/// In-memory rendition of the persisted group state.
struct TestStore {
    nodes: HashMap<String, StoredNode>,
    name_index: Vec<String>,
    user_ids: Vec<String>,
    games: HashMap<String, (String, i64, Vec<String>, Vec<String>)>,
    games_z: Vec<(String, i64)>,
    user_games: HashMap<String, Vec<(String, i64)>>,
}

fn zadd(z: &mut Vec<(String, i64)>, member: &str, score: i64) {
    z.retain(|(m, _)| m != member);
    let pos = z
        .iter()
        .position(|(m, s)| (*s, m.as_str()) > (score, member))
        .unwrap_or(z.len());
    z.insert(pos, (member.to_string(), score));
}

impl TestStore {
    fn new() -> TestStore {
        TestStore {
            nodes: HashMap::new(),
            name_index: Vec::new(),
            user_ids: Vec::new(),
            games: HashMap::new(),
            games_z: Vec::new(),
            user_games: HashMap::new(),
        }
    }

    fn snapshot(&self) -> Snapshot {
        Snapshot { nodes: self.nodes.clone() }
    }

    fn apply(&mut self, cmds: Vec<Cmd<Fp>>) {
        for cmd in cmds {
            match cmd {
                Cmd::SetUserNode(uid, node) => {
                    let mut ctx = Snapshot { nodes: HashMap::new() };
                    ctx.set_node(&uid, node);
                    for (k, v) in ctx.nodes {
                        self.nodes.insert(k, v);
                    }
                },
                Cmd::ZAddNameIndex(entry) => {
                    if !self.name_index.contains(&entry) {
                        self.name_index.push(entry);
                        self.name_index.sort();
                    }
                },
                Cmd::SAddUserId(uid) => {
                    let raw = uid.as_str().to_string();
                    if !self.user_ids.contains(&raw) {
                        self.user_ids.push(raw);
                    }
                },
                Cmd::SetGame(game) => {
                    self.games.insert(
                        game.id().as_str().to_string(),
                        (
                            game.id().as_str().to_string(),
                            game.datetime(),
                            game.winner_ids().iter().map(|u| u.as_str().to_string()).collect(),
                            game.loser_ids().iter().map(|u| u.as_str().to_string()).collect(),
                        ),
                    );
                },
                Cmd::ZAddGames(gid, score) => {
                    zadd(&mut self.games_z, gid.as_str(), score);
                },
                Cmd::ZAddUserGames(uid, gid, score) => {
                    let entry = self.user_games.entry(uid.as_str().to_string()).or_default();
                    zadd(entry, gid.as_str(), score);
                },
            }
        }
    }

    fn create_user(&mut self, uid: &str, name: &str, now: i64) -> Result<User<Fp>, Error> {
        let prefix = format!("{}:", name);
        let hits: Vec<String> =
            self.name_index.iter().filter(|e| e.starts_with(&prefix)).cloned().collect();
        let (user, cmds) = create_user::<Fp>(&UserId::new(uid.to_string()), name, now, &hits)?;
        self.apply(cmds);
        Ok(user)
    }

    fn read_users(&mut self, ids: &[&str]) -> Result<Vec<User<Fp>>, Error> {
        let idv: Vec<UserId> = ids.iter().map(|s| UserId::new(s.to_string())).collect();
        let mut ctx = UserStoreCtx::new(self.snapshot());
        let users = read_users(&mut ctx, &idv)?;
        let flush = ctx.commands();
        self.apply(flush);
        Ok(users)
    }

    fn create_game(
        &mut self,
        gid: &str,
        winners: &[&str],
        losers: &[&str],
        at: i64,
    ) -> Result<Game, Error> {
        let w: Vec<UserId> = winners.iter().map(|s| UserId::new(s.to_string())).collect();
        let l: Vec<UserId> = losers.iter().map(|s| UserId::new(s.to_string())).collect();
        let mut ctx = UserStoreCtx::new(self.snapshot());
        let (game, cmds) = create_game(&mut ctx, &GameId::new(gid.to_string()), &w, &l, at)?;
        let flush = ctx.commands();
        self.apply(flush);
        self.apply(cmds);
        Ok(game)
    }

    fn leaderboard(&mut self, at: i64) -> Result<Vec<User<Fp>>, Error> {
        let ids: Vec<UserId> = self.user_ids.iter().map(|s| UserId::new(s.clone())).collect();
        let mut ctx = UserStoreCtx::new(self.snapshot());
        let users = get_leaderboard(&mut ctx, &ids, at)?;
        let flush = ctx.commands();
        self.apply(flush);
        Ok(users)
    }

    fn fetch_games(&self, ids: &[&str]) -> Vec<Option<Game>> {
        ids.iter()
            .map(|gid| {
                self.games.get(*gid).map(|(id, at, w, l)| {
                    Game::new(
                        GameId::new(id.clone()),
                        *at,
                        w.iter().map(|u| UserId::new(u.clone())).collect(),
                        l.iter().map(|u| UserId::new(u.clone())).collect(),
                    )
                })
            })
            .collect()
    }

    fn list_games(&self, before: Option<&str>) -> Result<Vec<Game>, Error> {
        let reversed: Vec<&(String, i64)> = self.games_z.iter().rev().collect();
        let before_rank = match before {
            Some(gid) => match reversed.iter().position(|(m, _)| m == gid) {
                Some(rank) => Some(rank),
                None => return Err(Error::Store),
            },
            None => None,
        };
        let (start, stop) = list_games_window(before_rank);
        let mut ids: Vec<&str> = Vec::new();
        let mut at = start;
        while at <= stop && at < reversed.len() {
            ids.push(reversed[at].0.as_str());
            at += 1;
        }
        read_games(self.fetch_games(&ids))
    }
}

const NOW: i64 = 1_700_000_000_000;

#[test]
fn test_create_and_read_user() {
    let mut store = TestStore::new();
    let user = store.create_user("u1", "Alice", NOW).unwrap();
    assert_eq!(user.id().as_str(), "u1");
    assert_eq!(user.name(), "Alice");
    let (mu, sigma2) = user.player().skill().to_mu_sigma2();
    assert!((mu.0 - 25.0).abs() < 1e-9);
    assert!((sigma2.0 - 69.4444444).abs() < 1e-3);

    let read = store.read_users(&["u1"]).unwrap();
    assert_eq!(read.len(), 1);
    assert_eq!(read[0].id().as_str(), "u1");
    assert_eq!(read[0].name(), "Alice");
}

#[test]
fn test_name_too_short() {
    let mut store = TestStore::new();
    let r = store.create_user("u2", "Al", NOW);
    assert!(matches!(r, Err(Error::UserNameTooShort)));
}

#[test]
fn test_duplicate_name() {
    let mut store = TestStore::new();
    store.create_user("u1", "Alice", NOW).unwrap();
    let r = store.create_user("u3", "Alice", NOW);
    assert!(matches!(r, Err(Error::UserAlreadyExists)));
}

#[test]
fn test_read_missing_user() {
    let mut store = TestStore::new();
    store.create_user("u1", "Alice", NOW).unwrap();
    let r = store.read_users(&["nobody"]);
    assert!(matches!(
        r,
        Err(Error::Merge(fooskill::merge::Error::MissingEntryError(_)))
    ));
}

#[test]
fn test_game_updates_skills() {
    let mut store = TestStore::new();
    store.create_user("alice", "Alice", NOW).unwrap();
    store.create_user("bob", "Bobby", NOW).unwrap();
    let game = store.create_game("g1", &["alice"], &["bob"], NOW).unwrap();
    assert_eq!(game.id().as_str(), "g1");
    assert_eq!(game.winner_ids().len(), 1);
    assert_eq!(game.loser_ids().len(), 1);

    let read = store.read_users(&["alice", "bob"]).unwrap();
    let (mu_a, s2_a) = read[0].player().skill().to_mu_sigma2();
    let (mu_b, s2_b) = read[1].player().skill().to_mu_sigma2();
    // solo win over an equal prior under beta = sigma/2 and the derived
    // draw margin
    assert!((mu_a.0 - 29.6264).abs() < 0.1);
    assert!((mu_b.0 - 20.3736).abs() < 0.1);
    assert!(s2_a.0 < 69.4444444);
    assert!(s2_b.0 < 69.4444444);
    assert!((mu_a.0 - 25.0 + (mu_b.0 - 25.0)).abs() < 1e-6);
}

#[test]
fn test_leaderboard_order() {
    let mut store = TestStore::new();
    store.create_user("alice", "Alice", NOW).unwrap();
    store.create_user("bob", "Bobby", NOW).unwrap();
    store.create_game("g1", &["alice"], &["bob"], NOW).unwrap();
    let board = store.leaderboard(NOW).unwrap();
    assert_eq!(board.len(), 2);
    assert_eq!(board[0].name(), "Alice");
    assert_eq!(board[1].name(), "Bobby");
}

#[test]
fn test_list_games_pagination() {
    let mut store = TestStore::new();
    store.create_user("alice", "Alice", NOW).unwrap();
    store.create_user("bob", "Bobby", NOW).unwrap();
    store.create_game("g1", &["alice"], &["bob"], NOW + 1000).unwrap();
    store.create_game("g2", &["bob"], &["alice"], NOW + 2000).unwrap();
    store.create_game("g3", &["alice"], &["bob"], NOW + 3000).unwrap();

    let all = store.list_games(None).unwrap();
    let ids: Vec<&str> = all.iter().map(|g| g.id().as_str()).collect();
    assert_eq!(ids, vec!["g3", "g2", "g1"]);

    let page = store.list_games(Some("g2")).unwrap();
    let ids: Vec<&str> = page.iter().map(|g| g.id().as_str()).collect();
    assert_eq!(ids, vec!["g1"]);
}

#[test]
fn test_interrupted_game_changes_nothing() {
    let mut store = TestStore::new();
    store.create_user("alice", "Alice", NOW).unwrap();
    store.create_user("bob", "Bobby", NOW).unwrap();
    let before_nodes = store.nodes.clone();
    let before_games = store.games_z.clone();

    // run the body but drop its pipeline, as an aborted commit would
    let w = vec![UserId::new("alice".to_string())];
    let l = vec![UserId::new("bob".to_string())];
    let mut ctx = UserStoreCtx::new(store.snapshot());
    let built = create_game(&mut ctx, &GameId::new("g9".to_string()), &w, &l, NOW);
    assert!(built.is_ok());

    assert_eq!(store.nodes.len(), before_nodes.len());
    for (k, v) in &before_nodes {
        let now_v = store.nodes.get(k).unwrap();
        assert_eq!(now_v.0, v.0);
        assert_eq!(now_v.3, v.3);
    }
    assert_eq!(store.games_z, before_games);
    assert!(store.games.is_empty());
    let read = store.read_users(&["alice", "bob"]).unwrap();
    let (mu_a, _) = read[0].player().skill().to_mu_sigma2();
    assert!((mu_a.0 - 25.0).abs() < 1e-9);
}

#[test]
fn test_game_with_unknown_user_fails() {
    let mut store = TestStore::new();
    store.create_user("alice", "Alice", NOW).unwrap();
    let r = store.create_game("g1", &["alice"], &["ghost"], NOW);
    assert!(matches!(r, Err(Error::Merge(_))));
    assert!(store.games.is_empty());
    assert!(store.games_z.is_empty());
}

#[test]
fn test_game_rejects_future_player() {
    let mut store = TestStore::new();
    store.create_user("alice", "Alice", NOW).unwrap();
    store.create_user("bob", "Bobby", NOW).unwrap();
    let r = store.create_game("g1", &["alice"], &["bob"], NOW - 10_000);
    assert!(matches!(r, Err(Error::Store)));
}

#[test]
fn test_query_user_index_parses_trailing_id() {
    let entries = vec![
        "Alice:u1".to_string(),
        "noseparator".to_string(),
        "Bob:Ann:u2".to_string(),
    ];
    let ids = query_user_index(&entries);
    let raw: Vec<&str> = ids.iter().map(|u| u.as_str()).collect();
    assert_eq!(raw, vec!["u1", "u2"]);
}

#[test]
fn test_query_user_finds_users() {
    let mut store = TestStore::new();
    store.create_user("u1", "Alice", NOW).unwrap();
    store.create_user("u2", "Alina", NOW).unwrap();
    store.create_user("u3", "Bobby", NOW).unwrap();
    let entries: Vec<String> =
        store.name_index.iter().filter(|e| e.starts_with("Al")).cloned().collect();
    let mut ctx = UserStoreCtx::new(store.snapshot());
    let users = query_user(&mut ctx, &entries).unwrap();
    let names: Vec<&str> = users.iter().map(|u| u.name()).collect();
    assert_eq!(names, vec!["Alice", "Alina"]);
}

#[test]
fn test_key_layout() {
    let g = GroupId::new("club".to_string());
    let u = UserId::new("u1".to_string());
    let game = GameId::new("g1".to_string());
    assert_eq!(group_key_prefix(&g), "group:club");
    assert_eq!(user_id_key(&g), "group:club:user.id");
    assert_eq!(user_name_index_key(&g), "group:club:user.name.index");
    assert_eq!(user_key(&g, &u), "group:club:user:u1");
    assert_eq!(user_games_key(&g, &u), "group:club:user.games:u1");
    assert_eq!(game_key(&g, &game), "group:club:game:g1");
    assert_eq!(games_key(&g), "group:club:games");
    assert_eq!(name_index_entry("Alice", &u), "Alice:u1");
    let (lo, hi) = name_index_range("Alice:");
    assert_eq!(lo, "[Alice:");
    assert_eq!(hi, "[Alice:\x7f");
}

#[test]
fn test_list_games_window_bounds() {
    assert_eq!(list_games_window(None), (0, 99));
    assert_eq!(list_games_window(Some(0)), (1, 100));
    assert_eq!(list_games_window(Some(41)), (42, 141));
}

#[test]
fn test_read_games_requires_every_record() {
    let some = Game::new(GameId::new("g1".to_string()), 5, Vec::new(), Vec::new());
    assert!(matches!(read_games(vec![Some(some), None]), Err(Error::Store)));
    let some = Game::new(GameId::new("g1".to_string()), 5, Vec::new(), Vec::new());
    let ok = read_games(vec![Some(some)]).unwrap();
    assert_eq!(ok.len(), 1);
    assert_eq!(ok[0].id().as_str(), "g1");
}

#[test]
fn test_tx_driver_transitions() {
    assert_eq!(tx_step(TxState::Building, TxEvent::BodyOk), Some(TxState::Executing));
    assert_eq!(tx_step(TxState::Building, TxEvent::BodyErr), Some(TxState::Failed));
    assert_eq!(tx_step(TxState::Executing, TxEvent::ExecOk), Some(TxState::Committed));
    assert_eq!(tx_step(TxState::Executing, TxEvent::ExecAborted), Some(TxState::Retrying));
    assert_eq!(tx_step(TxState::Executing, TxEvent::ConnErr), Some(TxState::Failed));
    assert_eq!(tx_step(TxState::Retrying, TxEvent::Begin), Some(TxState::Building));
    // committed and failed attempts are final
    assert_eq!(tx_step(TxState::Committed, TxEvent::Begin), None);
    assert_eq!(tx_step(TxState::Failed, TxEvent::Begin), None);
}
