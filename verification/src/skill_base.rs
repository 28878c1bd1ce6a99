//! The skill service: users, games, and the operations over them.
//!
//! The functions here hold the decision logic of the service: validation,
//! union-find traversal of user records, the rating update of a game, and
//! the leaderboard order.  Reads of user nodes go through a [`MergeCtx`];
//! writes are returned as [`Cmd`] values for the embedder to enqueue on an
//! atomic pipeline.

use crate::merge;
use crate::merge::acyclic;
use crate::merge::find_ok;
use crate::merge::find_value;
use crate::merge::keys_well_behaved;
use crate::merge::root_of;
use crate::merge::uf_preserved;
use crate::merge::Mergeable;
use crate::merge::MergeCtx;
use crate::merge::NodeMap;
use crate::message::Message;
use crate::player::Player;
use crate::scalar::Scalar;
use crate::true_skill::GameResult;
use crate::true_skill::TrueSkill;
use vstd::pervasive::cloned;
use vstd::prelude::*;
use vstd::std_specs::cmp::PartialEqSpec;
use vstd::std_specs::cmp::PartialEqSpecImpl;
use vstd::string::StrSliceExecFns;
use vstd::string::StringSliceAdditionalSpecFns;
use vstd::string::StringExecFns;

verus! {

/// Name of a group: the namespace all other keys live under.
#[derive(Debug)]
pub struct GroupId(String);

/// Identity of a game.
#[derive(Debug)]
pub struct GameId(String);

/// Identity of a user.
#[derive(Debug)]
pub struct UserId(String);

impl View for GroupId {
    type V = Seq<char>;

    closed spec fn view(&self) -> Seq<char> {
        self.0@
    }
}

impl View for GameId {
    type V = Seq<char>;

    closed spec fn view(&self) -> Seq<char> {
        self.0@
    }
}

impl View for UserId {
    type V = Seq<char>;

    closed spec fn view(&self) -> Seq<char> {
        self.0@
    }
}

impl GroupId {
    /// Wraps a raw group name.
    pub fn new(raw: String) -> (r: GroupId)
        ensures
            r@ == raw@,
    {
        GroupId(raw)
    }

    /// The raw group name.
    pub fn as_str(&self) -> (r: &str)
        ensures
            r@ == self@,
    {
        self.0.as_str()
    }
}

impl GameId {
    /// Wraps a raw game identifier.
    pub fn new(raw: String) -> (r: GameId)
        ensures
            r@ == raw@,
    {
        GameId(raw)
    }

    /// The raw game identifier.
    pub fn as_str(&self) -> (r: &str)
        ensures
            r@ == self@,
    {
        self.0.as_str()
    }
}

impl UserId {
    /// Wraps a raw user identifier.
    pub fn new(raw: String) -> (r: UserId)
        ensures
            r@ == raw@,
    {
        UserId(raw)
    }

    /// The raw user identifier.
    pub fn as_str(&self) -> (r: &str)
        ensures
            r@ == self@,
    {
        self.0.as_str()
    }
}

impl Clone for UserId {
    fn clone(&self) -> (r: Self)
        ensures
            r == *self,
    {
        UserId(self.0.clone())
    }
}

impl Clone for GameId {
    fn clone(&self) -> (r: Self)
        ensures
            r == *self,
    {
        GameId(self.0.clone())
    }
}

impl Clone for GroupId {
    fn clone(&self) -> (r: Self)
        ensures
            r == *self,
    {
        GroupId(self.0.clone())
    }
}

impl PartialEq for UserId {
    fn eq(&self, other: &Self) -> (r: bool) {
        self.0 == other.0
    }
}

impl PartialEqSpecImpl for UserId {
    open spec fn obeys_eq_spec() -> bool {
        true
    }

    open spec fn eq_spec(&self, other: &Self) -> bool {
        self@ == other@
    }
}

impl PartialEq for GameId {
    fn eq(&self, other: &Self) -> (r: bool) {
        self.0 == other.0
    }
}

impl PartialEqSpecImpl for GameId {
    open spec fn obeys_eq_spec() -> bool {
        true
    }

    open spec fn eq_spec(&self, other: &Self) -> bool {
        self@ == other@
    }
}

/// User identifiers fulfil the key conditions of the union-find store.
pub proof fn lemma_user_id_keys()
    ensures
        keys_well_behaved::<UserId>(),
{
    assert forall|a: UserId, b: UserId| #[trigger] cloned::<UserId>(a, b) implies b@ == a@ by {}
}

/// Represents a service error.
#[derive(Debug)]
pub enum Error {
    /// Connection, protocol or decode failure of the backing store.
    Store,
    /// A union-find walk failed.
    Merge(merge::Error<UserId>),
    /// The name chosen for a new user is already taken.
    UserAlreadyExists,
    /// The name chosen for a new user has fewer than three bytes.
    UserNameTooShort,
    /// The supplied group token did not decode to a group.
    InvalidGroupId,
}

/// A stored user: immutable identity plus the mutable rating state.
#[derive(Debug)]
pub struct User<S> {
    id: UserId,
    name: String,
    player: Player<S>,
}

impl<S: Scalar> User<S> {
    /// Builds a user record.
    pub fn new(id: UserId, name: String, player: Player<S>) -> (r: User<S>)
        ensures
            r.spec_id() == id,
            r.spec_name() == name@,
            r.spec_player() == player,
    {
        User { id, name, player }
    }

    pub fn id(&self) -> (r: &UserId)
        ensures
            *r == self.spec_id(),
    {
        &self.id
    }

    pub fn name(&self) -> (r: &str)
        ensures
            r@ == self.spec_name(),
    {
        self.name.as_str()
    }

    pub fn player(&self) -> (r: &Player<S>)
        ensures
            *r == self.spec_player(),
    {
        &self.player
    }

    /// The identity, at the specification level.
    pub closed spec fn spec_id(self) -> UserId {
        self.id
    }

    /// The name, at the specification level.
    pub closed spec fn spec_name(self) -> Seq<char> {
        self.name@
    }

    /// The rating state, at the specification level.
    pub closed spec fn spec_player(self) -> Player<S> {
        self.player
    }

    /// An exact copy.
    pub fn duplicate(&self) -> (r: User<S>)
        ensures
            r == *self,
    {
        User { id: self.id.clone(), name: self.name.clone(), player: self.player }
    }

    /// The same user with the rating state replaced.
    pub fn with_player(&self, player: Player<S>) -> (r: User<S>)
        ensures
            r.spec_id() == self.spec_id(),
            r.spec_name() == self.spec_name(),
            r.spec_player() == player,
    {
        User { id: self.id.clone(), name: self.name.clone(), player }
    }
}

/// A stored game: identity, moment (milliseconds since the epoch) and the
/// two teams.  Never mutated once written.
#[derive(Debug)]
pub struct Game {
    id: GameId,
    datetime: i64,
    winner_ids: Vec<UserId>,
    loser_ids: Vec<UserId>,
}

impl Game {
    /// Builds a game record.
    pub fn new(id: GameId, datetime: i64, winner_ids: Vec<UserId>, loser_ids: Vec<UserId>) -> (r:
        Game)
        ensures
            r.spec_id() == id,
            r.spec_datetime() == datetime,
            r.spec_winner_ids() == winner_ids@,
            r.spec_loser_ids() == loser_ids@,
    {
        Game { id, datetime, winner_ids, loser_ids }
    }

    pub fn id(&self) -> (r: &GameId)
        ensures
            *r == self.spec_id(),
    {
        &self.id
    }

    pub fn datetime(&self) -> (r: i64)
        ensures
            r == self.spec_datetime(),
    {
        self.datetime
    }

    pub fn winner_ids(&self) -> (r: &Vec<UserId>)
        ensures
            r@ == self.spec_winner_ids(),
    {
        &self.winner_ids
    }

    pub fn loser_ids(&self) -> (r: &Vec<UserId>)
        ensures
            r@ == self.spec_loser_ids(),
    {
        &self.loser_ids
    }

    /// The identity, at the specification level.
    pub closed spec fn spec_id(self) -> GameId {
        self.id
    }

    /// The moment, at the specification level.
    pub closed spec fn spec_datetime(self) -> i64 {
        self.datetime
    }

    /// The winning team, at the specification level.
    pub closed spec fn spec_winner_ids(self) -> Seq<UserId> {
        self.winner_ids@
    }

    /// The losing team, at the specification level.
    pub closed spec fn spec_loser_ids(self) -> Seq<UserId> {
        self.loser_ids@
    }
}

/// A buffered write toward the store, to be enqueued on an atomic
/// pipeline by the embedder.  Meanings follow the persisted key layout:
/// user nodes and games are stored as records under their id, the name
/// index and the user-id set are group-wide, and the game lists are
/// sorted sets scored by milliseconds.
pub enum Cmd<S> {
    /// Store this user node under its id.
    SetUserNode(UserId, Mergeable<UserId, User<S>>),
    /// Add this member to the group's name index.
    ZAddNameIndex(String),
    /// Add this id to the group's user-id set.
    SAddUserId(UserId),
    /// Store this game under its id.
    SetGame(Game),
    /// Add this game to the group's game list with this score.
    ZAddGames(GameId, i64),
    /// Add this game to this user's game list with this score.
    ZAddUserGames(UserId, GameId, i64),
}

/// An exact copy of a stored user node.
fn dup_node<S: Scalar>(n: &Mergeable<UserId, User<S>>) -> (r: Mergeable<UserId, User<S>>)
    ensures
        r@ == n@,
{
    Mergeable::from_parts(n.parent_index().clone(), n.rank(), n.item().duplicate())
}

/// Node map a write buffer holds: later entries shadow earlier ones.
pub open spec fn cache_map<S: Scalar>(
    s: Seq<(UserId, Mergeable<UserId, User<S>>)>,
) -> NodeMap<Seq<char>, User<S>>
    decreases s.len(),
{
    if s.len() == 0 {
        Map::empty()
    } else {
        cache_map(s.drop_last()).insert(s.last().0@, s.last().1@)
    }
}

proof fn lemma_cache_last_hit<S: Scalar>(s: Seq<(UserId, Mergeable<UserId, User<S>>)>, i: int)
    requires
        0 <= i < s.len(),
        forall|j: int| i < j < s.len() ==> (#[trigger] s[j]).0@ != s[i].0@,
    ensures
        cache_map(s).dom().contains(s[i].0@),
        cache_map(s)[s[i].0@] == s[i].1@,
    decreases s.len(),
{
    if i == s.len() - 1 {
    } else {
        lemma_cache_last_hit(s.drop_last(), i);
    }
}

proof fn lemma_cache_no_hit<S: Scalar>(s: Seq<(UserId, Mergeable<UserId, User<S>>)>, k: Seq<char>)
    requires
        forall|j: int| 0 <= j < s.len() ==> (#[trigger] s[j]).0@ != k,
    ensures
        !cache_map(s).dom().contains(k),
    decreases s.len(),
{
    if s.len() == 0 {
    } else {
        lemma_cache_no_hit(s.drop_last(), k);
    }
}

proof fn lemma_cache_covers<S: Scalar>(s: Seq<(UserId, Mergeable<UserId, User<S>>)>, i: int)
    requires
        0 <= i < s.len(),
    ensures
        cache_map(s).dom().contains(s[i].0@),
    decreases s.len(),
{
    if i == s.len() - 1 {
    } else {
        lemma_cache_covers(s.drop_last(), i);
    }
}

proof fn lemma_cache_key_has_entry<S: Scalar>(
    s: Seq<(UserId, Mergeable<UserId, User<S>>)>,
    k: Seq<char>,
)
    requires
        cache_map(s).dom().contains(k),
    ensures
        exists|i: int| 0 <= i < s.len() && (#[trigger] s[i]).0@ == k,
    decreases s.len(),
{
    if s.len() == 0 {
    } else if s.last().0@ == k {
        assert((#[trigger] s[s.len() - 1]).0@ == k);
    } else {
        lemma_cache_key_has_entry(s.drop_last(), k);
        let i = choose|i: int| 0 <= i < s.drop_last().len() && (#[trigger] s.drop_last()[i]).0@
            == k;
        assert((#[trigger] s[i]).0@ == k);
    }
}

/// Read-through cache bound to one transaction, backing the union-find
/// walks with node reads and buffering every touched node for write-back.
///
/// Reads go to the underlying context once per key and are pinned in the
/// cache, so multi-step traversals see a stable store; writes stay in the
/// cache until the buffered nodes are turned into commands.
pub struct UserStoreCtx<S, C> {
    inner: C,
    cache: Vec<(UserId, Mergeable<UserId, User<S>>)>,
}

impl<S: Scalar, C: MergeCtx<Index = UserId, Item = User<S>>> UserStoreCtx<S, C> {
    /// Wraps a node source in a fresh, empty cache.
    pub fn new(inner: C) -> (r: Self)
        ensures
            r.nodes() == inner.nodes(),
    {
        let r = UserStoreCtx { inner, cache: Vec::new() };
        proof {
            assert(r.nodes() =~= r.inner.nodes());
        }
        r
    }

    /// Keys with a buffered node.
    pub closed spec fn buffered(&self) -> Set<Seq<char>> {
        cache_map(self.cache@).dom()
    }

    /// One write command per buffered entry, in buffer order: every
    /// touched key gets at least one command, and the last command for a
    /// key writes the node the context currently holds for it.
    pub fn commands(&self) -> (r: Vec<Cmd<S>>)
        ensures
            forall|i: int|
                0 <= i < r@.len() ==> (#[trigger] r@[i]) is SetUserNode && self.nodes(
                ).dom().contains(r@[i]->SetUserNode_0@),
            forall|i: int|
                0 <= i < r@.len() && (forall|j: int|
                    i < j < r@.len() ==> (#[trigger] r@[j])->SetUserNode_0@
                        != r@[i]->SetUserNode_0@) ==> (#[trigger] r@[i])->SetUserNode_1@
                    == self.nodes()[r@[i]->SetUserNode_0@],
            forall|k: Seq<char>| #[trigger]
                self.buffered().contains(k) ==> exists|i: int|
                    0 <= i < r@.len() && (#[trigger] r@[i])->SetUserNode_0@ == k,
    {
        let mut out: Vec<Cmd<S>> = Vec::new();
        let mut i: usize = 0;
        while i < self.cache.len()
            invariant
                i <= self.cache@.len(),
                out@.len() == i as int,
                forall|j: int|
                    0 <= j < i as int ==> (#[trigger] out@[j]) is SetUserNode
                        && out@[j]->SetUserNode_0@ == self.cache@[j].0@
                        && out@[j]->SetUserNode_1@ == self.cache@[j].1@,
            decreases self.cache@.len() - i,
        {
            let entry = &self.cache[i];
            proof {
                lemma_cache_covers(self.cache@, i as int);
            }
            out.push(Cmd::SetUserNode(entry.0.clone(), dup_node(&entry.1)));
            i = i + 1;
        }
        proof {
            assert forall|i2: int|
                0 <= i2 < out@.len() && (forall|j: int|
                    i2 < j < out@.len() ==> (#[trigger] out@[j])->SetUserNode_0@
                        != out@[i2]->SetUserNode_0@) implies (#[trigger] out@[i2])->SetUserNode_1@
                == self.nodes()[out@[i2]->SetUserNode_0@] by {
                assert forall|j: int| i2 < j < self.cache@.len() implies ((
                #[trigger] self.cache@[j]).0@ != self.cache@[i2].0@) by {
                    assert(out@[j]->SetUserNode_0@ != out@[i2]->SetUserNode_0@);
                }
                lemma_cache_last_hit(self.cache@, i2);
            }
            assert forall|k: Seq<char>| #[trigger] self.buffered().contains(k) implies exists|
                i2: int,
            | 0 <= i2 < out@.len() && (#[trigger] out@[i2])->SetUserNode_0@ == k by {
                lemma_cache_key_has_entry(self.cache@, k);
                let i2 = choose|i2: int|
                    0 <= i2 < self.cache@.len() && (#[trigger] self.cache@[i2]).0@ == k;
                assert((#[trigger] out@[i2])->SetUserNode_0@ == k);
            }
            assert forall|i2: int| 0 <= i2 < out@.len() implies self.nodes().dom().contains(
                out@[i2]->SetUserNode_0@,
            ) by {
                lemma_cache_covers(self.cache@, i2);
            }
        }
        out
    }
}

impl<S: Scalar, C: MergeCtx<Index = UserId, Item = User<S>>> MergeCtx for UserStoreCtx<S, C> {
    type Index = UserId;

    type Item = User<S>;

    closed spec fn nodes(&self) -> NodeMap<Seq<char>, User<S>> {
        self.inner.nodes().union_prefer_right(cache_map(self.cache@))
    }

    fn get_node(&mut self, index: &UserId) -> (r: Option<Mergeable<UserId, User<S>>>) {
        let mut i: usize = self.cache.len();
        while i > 0
            invariant
                i <= self.cache@.len(),
                forall|j: int|
                    i as int <= j < self.cache@.len() ==> (#[trigger] self.cache@[j]).0@
                        != index@,
            decreases i,
        {
            i = i - 1;
            if self.cache[i].0 == *index {
                let node = dup_node(&self.cache[i].1);
                proof {
                    lemma_cache_last_hit(self.cache@, i as int);
                }
                return Some(node);
            }
        }
        proof {
            lemma_cache_no_hit(self.cache@, index@);
        }
        let ghost pre = *self;
        match self.inner.get_node(index) {
            None => None,
            Some(node) => {
                let copy = dup_node(&node);
                let key = index.clone();
                self.cache.push((key, copy));
                proof {
                    assert(self.cache@.drop_last() =~= pre.cache@);
                    assert(self.nodes() =~= pre.nodes());
                }
                Some(node)
            },
        }
    }

    fn set_node(&mut self, index: &UserId, item: Mergeable<UserId, User<S>>) {
        let key = index.clone();
        self.cache.push((key, item));
        proof {
            assert(self.cache@.drop_last() =~= old(self).cache@);
            assert(self.nodes() =~= old(self).nodes().insert(index@, item@));
        }
    }
}

/// Reads all users given by a vector of user IDs.
///
/// Each id is resolved through the union-find forest; path compression
/// performed on the way stays buffered in the context for write-back.
/// The input ordering is preserved.  A missing id surfaces as a merge
/// error; in that case every id before it resolved.
#[verifier::loop_isolation(false)]
pub fn read_users<S: Scalar, C: MergeCtx<Index = UserId, Item = User<S>>>(
    ctx: &mut C,
    user_ids: &Vec<UserId>,
) -> (r: Result<Vec<User<S>>, Error>)
    requires
        acyclic(old(ctx).nodes()),
    ensures
        acyclic(final(ctx).nodes()),
        uf_preserved(old(ctx).nodes(), final(ctx).nodes()),
        r is Ok <==> (forall|i: int|
            0 <= i < user_ids@.len() ==> find_ok(old(ctx).nodes(), (#[trigger] user_ids@[i])@)),
        r matches Ok(users) ==> users@.len() == user_ids@.len() && (forall|i: int|
            0 <= i < user_ids@.len() ==> (#[trigger] users@[i]) == find_value(
                old(ctx).nodes(),
                user_ids@[i]@,
            )),
        r matches Err(e) ==> (match e {
            Error::Merge(merge::Error::MissingEntryError(c)) => exists|i: int|
                0 <= i < user_ids@.len() && (#[trigger] user_ids@[i])@ == c@ && !old(
                    ctx,
                ).nodes().dom().contains(c@),
            Error::Merge(merge::Error::NoParentError(c)) => exists|i: int|
                0 <= i < user_ids@.len() && old(ctx).nodes().dom().contains(
                    (#[trigger] user_ids@[i])@,
                ) && merge::walk(old(ctx).nodes(), user_ids@[i]@) is Missing,
            _ => false,
        }),
{
    let ghost m0 = ctx.nodes();
    let mut users: Vec<User<S>> = Vec::new();
    let mut i: usize = 0;
    proof {
        lemma_user_id_keys();
    }
    while i < user_ids.len()
        invariant
            acyclic(m0),
            keys_well_behaved::<UserId>(),
            i <= user_ids@.len(),
            users@.len() == i as int,
            acyclic(ctx.nodes()),
            uf_preserved(m0, ctx.nodes()),
            forall|j: int|
                0 <= j < i as int ==> find_ok(m0, (#[trigger] user_ids@[j])@) && users@[j]
                    == find_value(m0, user_ids@[j]@),
        decreases user_ids@.len() - i,
    {
        let ghost m_cur = ctx.nodes();
        let id = user_ids[i].clone();
        proof {
            assert(cloned::<UserId>(user_ids@[i as int], id));
            assert(id@ == user_ids@[i as int]@);
        }
        match merge::find(ctx, id) {
            Ok(user) => {
                proof {
                    assert(find_ok(m_cur, user_ids@[i as int]@));
                    assert(m0.dom().contains(user_ids@[i as int]@));
                    assert(find_ok(m0, user_ids@[i as int]@));
                    merge::lemma_find_idempotent(m0, m_cur, user_ids@[i as int]@);
                    merge::lemma_uf_preserved_trans(m0, m_cur, ctx.nodes());
                }
                users.push(user);
            },
            Err(e) => {
                proof {
                    merge::lemma_uf_preserved_trans(m0, m_cur, ctx.nodes());
                    let kv = user_ids@[i as int]@;
                    if m0.dom().contains(kv) {
                        merge::lemma_walk_total(m0, kv);
                    }
                    match &e {
                        merge::Error::MissingEntryError(c) => {
                            assert((#[trigger] user_ids@[i as int])@ == c@ && !m0.dom().contains(
                                c@,
                            ));
                        },
                        merge::Error::NoParentError(c) => {
                            assert(m0.dom().contains((#[trigger] user_ids@[i as int])@)
                                && merge::walk(m0, kv) is Missing);
                        },
                    }
                }
                return Err(Error::Merge(e));
            },
        }
        i = i + 1;
    }
    Ok(users)
}

/// The member written into the name index for a user: `name:id`.
pub fn name_index_entry(name: &str, user_id: &UserId) -> (r: String)
    ensures
        r@ == name@ + ":"@ + user_id@,
{
    let mut s = String::from_str(name);
    s.append(":");
    s.append(user_id.0.as_str());
    s
}

/// Bounds of the lexicographic scan that finds index entries starting
/// with `prefix`: redis-syntax inclusive start `[prefix` and exclusive
/// end `[prefix\x7f`.
pub fn name_index_range(prefix: &str) -> (r: (String, String))
    ensures
        r.0@ == "["@ + prefix@,
        r.1@ == "["@ + prefix@ + "\x7f"@,
{
    let mut lo = String::from_str("[");
    lo.append(prefix);
    let mut hi = String::from_str("[");
    hi.append(prefix);
    hi.append("\x7f");
    (lo, hi)
}

/// Creates a user with the given name, fit with the prior skill at
/// `datetime`.
///
/// `index_hits` must be the index entries found under the prefix
/// `name:`; the caller scans the store for them inside the same
/// transaction.  A name of fewer than three bytes is rejected; a
/// non-empty scan means the name is taken.  On success the returned
/// commands store the new root node, index its name and register its id.
pub fn create_user<S: Scalar>(
    user_id: &UserId,
    name: &str,
    datetime: i64,
    index_hits: &Vec<String>,
) -> (r: Result<(User<S>, Vec<Cmd<S>>), Error>)
    requires
        name.spec_bytes().len() <= usize::MAX,
    ensures
        name.spec_bytes().len() < 3 <==> r matches Err(Error::UserNameTooShort),
        name.spec_bytes().len() >= 3 && index_hits@.len() > 0 <==> r matches Err(
            Error::UserAlreadyExists,
        ),
        r is Ok <==> name.spec_bytes().len() >= 3 && index_hits@.len() == 0,
        r matches Ok(p) ==> {
            let user = p.0;
            let cmds = p.1;
            &&& user.spec_id() == *user_id
            &&& user.spec_name() == name@
            &&& user.spec_player().spec_skill() == Player::<S>::spec_default_skill()
            &&& user.spec_player().spec_datetime() == datetime
            &&& cmds@.len() == 3
            &&& cmds@[0] is SetUserNode
            &&& cmds@[0]->SetUserNode_0 == *user_id
            &&& cmds@[0]->SetUserNode_1@ == (merge::NodeModel {
                parent: user_id@,
                rank: 0u64,
                item: user,
            })
            &&& cmds@[1] is ZAddNameIndex
            &&& cmds@[1]->ZAddNameIndex_0@ == name@ + ":"@ + user_id@
            &&& cmds@[2] is SAddUserId
            &&& cmds@[2]->SAddUserId_0 == *user_id
        },
{
    if name.len() < 3 {
        return Err(Error::UserNameTooShort);
    }
    if index_hits.len() > 0 {
        return Err(Error::UserAlreadyExists);
    }
    let player = Player::<S>::default_at(datetime);
    let user = User::new(user_id.clone(), String::from_str(name), player);
    let node = Mergeable::new(user_id.clone(), user.duplicate());
    let mut cmds: Vec<Cmd<S>> = Vec::new();
    cmds.push(Cmd::SetUserNode(user_id.clone(), node));
    cmds.push(Cmd::ZAddNameIndex(name_index_entry(name, user_id)));
    cmds.push(Cmd::SAddUserId(user_id.clone()));
    Ok((user, cmds))
}

/// Position of the last colon in `s`, or `-1` when there is none.
pub open spec fn spec_last_colon(s: Seq<char>) -> int
    decreases s.len(),
{
    if s.len() == 0 {
        -1
    } else if s[s.len() - 1] == ':' {
        s.len() - 1
    } else {
        spec_last_colon(s.drop_last())
    }
}

/// The user id encoded in an index entry: everything after the last colon.
pub open spec fn spec_entry_id(s: Seq<char>) -> Seq<char> {
    s.subrange(spec_last_colon(s) + 1, s.len() as int)
}

/// Ids parsed out of a run of index entries: entries without a colon are
/// dropped, the rest yield what follows their last colon, in order.
pub open spec fn spec_parse_index(entries: Seq<Seq<char>>) -> Seq<Seq<char>>
    decreases entries.len(),
{
    if entries.len() == 0 {
        Seq::empty()
    } else {
        let init = spec_parse_index(entries.drop_last());
        if spec_last_colon(entries.last()) >= 0 {
            init.push(spec_entry_id(entries.last()))
        } else {
            init
        }
    }
}

proof fn lemma_last_colon_at(s: Seq<char>, i: int)
    requires
        0 <= i < s.len(),
        s[i] == ':',
        forall|j: int| i < j < s.len() ==> s[j] != ':',
    ensures
        spec_last_colon(s) == i,
    decreases s.len(),
{
    if i == s.len() - 1 {
    } else {
        lemma_last_colon_at(s.drop_last(), i);
    }
}

proof fn lemma_last_colon_none(s: Seq<char>)
    requires
        forall|j: int| 0 <= j < s.len() ==> s[j] != ':',
    ensures
        spec_last_colon(s) == -1,
    decreases s.len(),
{
    if s.len() == 0 {
    } else {
        lemma_last_colon_none(s.drop_last());
    }
}

/// Position of the last colon of `s`, scanning from the end.
fn last_colon(s: &str) -> (r: Option<usize>)
    ensures
        r matches Some(p) ==> p < s@.len() && spec_last_colon(s@) == p as int,
        r is None ==> spec_last_colon(s@) == -1,
{
    let n = s.unicode_len();
    let mut j: usize = n;
    while j > 0
        invariant
            j <= n,
            n as nat == s@.len(),
            forall|k: int| j as int <= k < s@.len() ==> s@[k] != ':',
        decreases j,
    {
        j = j - 1;
        let c = s.get_char(j);
        if c == ':' {
            proof {
                lemma_last_colon_at(s@, j as int);
            }
            return Some(j);
        }
    }
    proof {
        lemma_last_colon_none(s@);
    }
    None
}

/// Parses user ids out of name-index entries: for each entry holding a
/// colon, the characters after its last colon form a user id.
pub fn query_user_index(entries: &Vec<String>) -> (r: Vec<UserId>)
    ensures
        r@.map_values(|u: UserId| u@) == spec_parse_index(
            entries@.map_values(|e: String| e@),
        ),
{
    let mut out: Vec<UserId> = Vec::new();
    let mut i: usize = 0;
    while i < entries.len()
        invariant
            i <= entries@.len(),
            out@.map_values(|u: UserId| u@) == spec_parse_index(
                entries@.subrange(0, i as int).map_values(|e: String| e@),
            ),
        decreases entries@.len() - i,
    {
        let ghost pre = entries@.subrange(0, i as int).map_values(|e: String| e@);
        let entry = &entries[i];
        let ghost cur = entries@.subrange(0, i as int + 1).map_values(|e: String| e@);
        proof {
            assert(cur.drop_last() =~= pre);
            assert(cur.last() == entry@);
        }
        match last_colon(entry.as_str()) {
            Some(p) => {
                let n = entry.as_str().unicode_len();
                let id_str = entry.as_str().substring_char(p + 1, n);
                out.push(UserId::new(String::from_str(id_str)));
                proof {
                    assert(out@.map_values(|u: UserId| u@) =~= spec_parse_index(cur));
                }
            },
            None => {
                proof {
                    assert(out@.map_values(|u: UserId| u@) =~= spec_parse_index(cur));
                }
            },
        }
        i = i + 1;
    }
    proof {
        assert(entries@.subrange(0, entries@.len() as int) =~= entries@);
    }
    out
}

/// Ids encoded in a run of scanned index entries.
pub open spec fn spec_parsed_views(entries: Seq<String>) -> Seq<Seq<char>> {
    spec_parse_index(entries.map_values(|e: String| e@))
}

/// Finds users whose name matches a query: parses the scanned index
/// entries and resolves each id.
pub fn query_user<S: Scalar, C: MergeCtx<Index = UserId, Item = User<S>>>(
    ctx: &mut C,
    entries: &Vec<String>,
) -> (r: Result<Vec<User<S>>, Error>)
    requires
        acyclic(old(ctx).nodes()),
    ensures
        acyclic(final(ctx).nodes()),
        uf_preserved(old(ctx).nodes(), final(ctx).nodes()),
        r matches Ok(users) ==> users@.len() == spec_parsed_views(entries@).len() && (forall|
            i: int,
        |
            0 <= i < spec_parsed_views(entries@).len() ==> find_ok(
                old(ctx).nodes(),
                #[trigger] spec_parsed_views(entries@)[i],
            ) && users@[i] == find_value(old(ctx).nodes(), spec_parsed_views(entries@)[i])),
        r is Ok <==> (forall|i: int|
            0 <= i < spec_parsed_views(entries@).len() ==> find_ok(
                old(ctx).nodes(),
                #[trigger] spec_parsed_views(entries@)[i],
            )),
{
    let ids = query_user_index(entries);
    let r = read_users(ctx, &ids);
    proof {
        let idsv = spec_parsed_views(entries@);
        assert(ids@.len() == idsv.len()) by {
            assert(ids@.map_values(|u: UserId| u@).len() == idsv.len());
        }
        assert forall|i: int| 0 <= i < ids@.len() implies (#[trigger] ids@[i])@ == idsv[i] by {
            assert(ids@.map_values(|u: UserId| u@)[i] == idsv[i]);
        }
    }
    r
}

/// Reads all games given by a vector of fetched records, failing on any
/// gap: a missing game record is a store-level inconsistency.
#[verifier::loop_isolation(false)]
pub fn read_games(fetched: Vec<Option<Game>>) -> (r: Result<Vec<Game>, Error>)
    ensures
        r is Ok <==> (forall|i: int| 0 <= i < fetched@.len() ==> (#[trigger] fetched@[i]) is Some),
        r matches Ok(games) ==> games@.len() == fetched@.len() && (forall|i: int|
            0 <= i < fetched@.len() ==> ((#[trigger] fetched@[i]) matches Some(g) && games@[i]
                == g)),
        r matches Err(e) ==> e is Store,
{
    let mut rest = fetched;
    let ghost orig = rest@;
    let mut out: Vec<Game> = Vec::new();
    while rest.len() > 0
        invariant
            out@.len() + rest@.len() == orig.len(),
            rest@ =~= orig.subrange(out@.len() as int, orig.len() as int),
            forall|i: int|
                0 <= i < out@.len() ==> ((#[trigger] orig[i]) matches Some(g) && out@[i]
                    == g),
        decreases rest@.len(),
    {
        let next = rest.remove(0);
        match next {
            Some(g) => {
                out.push(g);
            },
            None => {
                proof {
                    assert((#[trigger] orig[out@.len() as int]) is None);
                }
                return Err(Error::Store);
            },
        }
    }
    Ok(out)
}

/// Window of game ranks that a page request asks for: the hundred games
/// after the given rank, or the first hundred.
pub fn list_games_window(before_rank: Option<usize>) -> (r: (usize, usize))
    requires
        before_rank matches Some(k) ==> k <= usize::MAX - 100,
    ensures
        r == (match before_rank {
            Some(k) => ((k + 1) as usize, (k + 100) as usize),
            None => (0usize, 99usize),
        }),
{
    match before_rank {
        Some(k) => (k + 1, k + 100),
        None => (0, 99),
    }
}

/// Conservative rating of a user at a moment: mean minus twice the
/// deviation of the drifted belief.
pub open spec fn spec_score<S: Scalar>(u: User<S>, at: i64) -> S {
    let ms = u.spec_player().spec_skill_at(at).spec_to_mu_sigma2();
    ms.0.sub_s(S::ratio_s(2, 1).mul_s(ms.1.sqrt_s()))
}

fn map_score<S: Scalar>(user: &User<S>, at: i64) -> (r: S)
    requires
        user.spec_player().spec_datetime() <= at,
    ensures
        r == spec_score(*user, at),
{
    let skill = match user.player().skill_at(at) {
        Some(m) => m,
        None => {
            proof {
                assert(false);
            }
            Message::from_mu_sigma2(S::ratio(0, 1), S::ratio(0, 1))
        },
    };
    let ms = skill.to_mu_sigma2();
    ms.0.sub(S::ratio(2, 1).mul(ms.1.sqrt()))
}

/// `u` placed into a descending run: it goes in front of the first user
/// it does not rank at-or-below, so earlier users win ties.
pub open spec fn spec_insert_ranked<S: Scalar>(sorted: Seq<User<S>>, u: User<S>, at: i64) -> Seq<
    User<S>,
>
    decreases sorted.len(),
{
    if sorted.len() == 0 {
        seq![u]
    } else if spec_score(u, at).le_s(spec_score(sorted[0], at)) {
        seq![sorted[0]] + spec_insert_ranked(sorted.subrange(1, sorted.len() as int), u, at)
    } else {
        seq![u] + sorted
    }
}

/// Users ordered by descending score: a stable insertion sort.
pub open spec fn spec_rank_users<S: Scalar>(users: Seq<User<S>>, at: i64) -> Seq<User<S>>
    decreases users.len(),
{
    if users.len() == 0 {
        Seq::empty()
    } else {
        spec_insert_ranked(spec_rank_users(users.drop_last(), at), users.last(), at)
    }
}

proof fn lemma_insert_ranked_split<S: Scalar>(sorted: Seq<User<S>>, u: User<S>, at: i64, j: int)
    requires
        0 <= j <= sorted.len(),
        forall|k: int|
            0 <= k < j ==> spec_score(u, at).le_s(spec_score(#[trigger] sorted[k], at)),
        j < sorted.len() ==> !spec_score(u, at).le_s(spec_score(sorted[j], at)),
    ensures
        spec_insert_ranked(sorted, u, at) == sorted.subrange(0, j) + seq![u] + sorted.subrange(
            j,
            sorted.len() as int,
        ),
    decreases sorted.len(),
{
    if sorted.len() == 0 {
        assert(spec_insert_ranked(sorted, u, at) =~= sorted.subrange(0, j) + seq![u]
            + sorted.subrange(j, sorted.len() as int));
    } else if j == 0 {
        assert(spec_insert_ranked(sorted, u, at) =~= sorted.subrange(0, 0) + seq![u]
            + sorted.subrange(0, sorted.len() as int));
    } else {
        let rest = sorted.subrange(1, sorted.len() as int);
        assert forall|k: int|
            0 <= k < j - 1 implies spec_score(u, at).le_s(
            spec_score(#[trigger] rest[k], at),
        ) by {
            assert(rest[k] == sorted[k + 1]);
        }
        lemma_insert_ranked_split(rest, u, at, j - 1);
        assert(spec_insert_ranked(sorted, u, at) =~= sorted.subrange(0, j) + seq![u]
            + sorted.subrange(j, sorted.len() as int));
    }
}

/// Sorts users by descending conservative rating; the sort is stable, so
/// earlier input order breaks ties.
#[verifier::loop_isolation(false)]
pub fn rank_users<S: Scalar>(users: Vec<User<S>>, at: i64) -> (r: Vec<User<S>>)
    requires
        forall|i: int|
            0 <= i < users@.len() ==> (#[trigger] users@[i]).spec_player().spec_datetime() <= at,
    ensures
        r@ == spec_rank_users(users@, at),
{
    let ghost orig = users@;
    let mut rest = users;
    let mut sorted: Vec<User<S>> = Vec::new();
    while rest.len() > 0
        invariant
            sorted@.len() + rest@.len() == orig.len(),
            rest@ =~= orig.subrange(sorted@.len() as int + rest@.len() as int - rest@.len() as int,
                orig.len() as int),
            forall|i: int|
                0 <= i < orig.len() ==> (#[trigger] orig[i]).spec_player().spec_datetime() <= at,
            sorted@ == spec_rank_users(orig.subrange(0, orig.len() - rest@.len()), at),
            forall|i: int|
                0 <= i < sorted@.len() ==> (#[trigger] sorted@[i]).spec_player().spec_datetime()
                    <= at,
        decreases rest@.len(),
    {
        let ghost done = orig.subrange(0, orig.len() - rest@.len());
        let u = rest.remove(0);
        proof {
            assert(u == orig[done.len() as int]);
            assert(orig.subrange(0, orig.len() - rest@.len()) =~= done.push(u));
            assert(done.push(u).drop_last() =~= done);
        }
        let mut j: usize = 0;
        let mut advancing = true;
        let score_u = map_score(&u, at);
        while advancing && j < sorted.len()
            invariant
                j <= sorted@.len(),
                forall|k: int|
                    0 <= k < j as int ==> spec_score(u, at).le_s(
                        spec_score(#[trigger] sorted@[k], at),
                    ),
                !advancing ==> j < sorted@.len() && !spec_score(u, at).le_s(
                    spec_score(sorted@[j as int], at),
                ),
            decreases sorted@.len() - j + (if advancing {
                1int
            } else {
                0int
            }),
        {
            let score_j = map_score(&sorted[j], at);
            if !score_u.le(score_j) {
                advancing = false;
            } else {
                j = j + 1;
            }
        }
        proof {
            lemma_insert_ranked_split(sorted@, u, at, j as int);
        }
        let ghost before = sorted@;
        sorted.insert(j, u);
        proof {
            assert(sorted@ =~= before.subrange(0, j as int) + seq![u] + before.subrange(
                before.len() as int - (before.len() - j as int),
                before.len() as int,
            ));
            assert(sorted@ =~= spec_insert_ranked(before, u, at));
        }
    }
    proof {
        assert(orig.subrange(0, orig.len() as int) =~= orig);
    }
    sorted
}

/// Order hypotheses of the leaderboard law: the scalar order is total
/// and transitive.
pub open spec fn spec_le_total<S: Scalar>() -> bool {
    &&& forall|a: S, b: S| #[trigger] a.le_s(b) || #[trigger] b.le_s(a)
    &&& forall|a: S, b: S, c: S| #[trigger] a.le_s(b) && #[trigger] b.le_s(c) ==> a.le_s(c)
}

/// The fixed-point scalar satisfies these hypotheses.
pub proof fn lemma_milli_le_total()
    ensures
        spec_le_total::<crate::scalar::Milli>(),
{
}

/// The sequence descends by score at `at`.
pub open spec fn spec_ranked<S: Scalar>(s: Seq<User<S>>, at: i64) -> bool {
    forall|i: int, j: int|
        0 <= i <= j < s.len() ==> spec_score(#[trigger] s[j], at).le_s(
            spec_score(#[trigger] s[i], at),
        )
}

proof fn lemma_insert_ranked_props<S: Scalar>(s: Seq<User<S>>, u: User<S>, at: i64)
    requires
        spec_le_total::<S>(),
        spec_ranked(s, at),
    ensures
        spec_ranked(spec_insert_ranked(s, u, at), at),
        spec_insert_ranked(s, u, at).to_multiset() == s.to_multiset().insert(u),
        forall|i: int|
            0 <= i < spec_insert_ranked(s, u, at).len() ==> (#[trigger] spec_insert_ranked(
                s,
                u,
                at,
            )[i]) == u || exists|k: int| 0 <= k < s.len() && spec_insert_ranked(s, u, at)[i] == (
            #[trigger] s[k]),
    decreases s.len(),
{
    let r = spec_insert_ranked(s, u, at);
    s.to_multiset_ensures();
    if s.len() == 0 {
        assert(seq![u] =~= Seq::<User<S>>::empty().push(u));
        Seq::<User<S>>::empty().to_multiset_ensures();
        assert(r.to_multiset() =~= s.to_multiset().insert(u));
        assert forall|i: int| 0 <= i < r.len() implies (#[trigger] r[i]) == u || exists|k: int|
            0 <= k < s.len() && r[i] == (#[trigger] s[k]) by {
            assert(r[i] == u);
        }
    } else if spec_score(u, at).le_s(spec_score(s[0], at)) {
        let rest = s.subrange(1, s.len() as int);
        assert forall|i: int, j: int| 0 <= i <= j < rest.len() implies spec_score(
            #[trigger] rest[j],
            at,
        ).le_s(spec_score(#[trigger] rest[i], at)) by {
            assert(rest[j] == s[j + 1] && rest[i] == s[i + 1]);
        }
        lemma_insert_ranked_props(rest, u, at);
        let ri = spec_insert_ranked(rest, u, at);
        assert(r =~= seq![s[0]] + ri);
        // every element of the inserted tail scores at or below the head
        assert forall|j: int| 0 <= j < ri.len() implies spec_score(#[trigger] ri[j], at).le_s(
            spec_score(s[0], at),
        ) by {
            if ri[j] == u {
            } else {
                let k = choose|k: int| 0 <= k < rest.len() && ri[j] == (#[trigger] rest[k]);
                assert(rest[k] == s[k + 1]);
            }
        }
        assert forall|i: int, j: int| 0 <= i <= j < r.len() implies spec_score(
            #[trigger] r[j],
            at,
        ).le_s(spec_score(#[trigger] r[i], at)) by {
            if i == 0 {
                if j == 0 {
                    assert(spec_score(r[0], at).le_s(spec_score(r[0], at)));
                } else {
                    assert(r[j] == ri[j - 1]);
                }
            } else {
                assert(r[i] == ri[i - 1] && r[j] == ri[j - 1]);
            }
        }
        // the multiset grows by exactly `u`
        assert(seq![s[0]] =~= Seq::<User<S>>::empty().push(s[0]));
        Seq::<User<S>>::empty().to_multiset_ensures();
        ri.to_multiset_ensures();
        rest.to_multiset_ensures();
        vstd::seq_lib::lemma_multiset_commutative(seq![s[0]], ri);
        assert(s =~= seq![s[0]] + rest);
        vstd::seq_lib::lemma_multiset_commutative(seq![s[0]], rest);
        assert(r.to_multiset() =~= s.to_multiset().insert(u));
        assert forall|i: int| 0 <= i < r.len() implies (#[trigger] r[i]) == u || exists|k: int|
            0 <= k < s.len() && r[i] == (#[trigger] s[k]) by {
            if i == 0 {
                assert(r[i] == (#[trigger] s[0]));
            } else {
                assert(r[i] == ri[i - 1]);
                if ri[i - 1] == u {
                } else {
                    let k = choose|k: int| 0 <= k < rest.len() && ri[i - 1] == (#[trigger] rest[k]);
                    assert(r[i] == (#[trigger] s[k + 1]));
                }
            }
        }
    } else {
        assert(r =~= seq![u] + s);
        // the head of the run scores at or below `u`
        assert(spec_score(s[0], at).le_s(spec_score(u, at)));
        assert forall|i: int, j: int| 0 <= i <= j < r.len() implies spec_score(
            #[trigger] r[j],
            at,
        ).le_s(spec_score(#[trigger] r[i], at)) by {
            if i == 0 && j > 0 {
                assert(r[j] == s[j - 1]);
                assert(spec_score(s[j - 1], at).le_s(spec_score(s[0], at)));
            } else if i > 0 {
                assert(r[i] == s[i - 1] && r[j] == s[j - 1]);
            } else {
                assert(spec_score(r[0], at).le_s(spec_score(r[0], at)));
            }
        }
        assert(seq![u] =~= Seq::<User<S>>::empty().push(u));
        Seq::<User<S>>::empty().to_multiset_ensures();
        vstd::seq_lib::lemma_multiset_commutative(seq![u], s);
        assert(r.to_multiset() =~= s.to_multiset().insert(u));
        assert forall|i: int| 0 <= i < r.len() implies (#[trigger] r[i]) == u || exists|k: int|
            0 <= k < s.len() && r[i] == (#[trigger] s[k]) by {
            if i > 0 {
                assert(r[i] == (#[trigger] s[i - 1]));
            }
        }
    }
}

/// Law: the leaderboard order is a stable descending sort by the
/// conservative score: the ranked sequence descends by score at `at` and
/// is a permutation of its input.  Stability is the definition itself:
/// each user goes in front of the first strictly lower score, so earlier
/// input order wins ties.
pub proof fn lemma_rank_users_sorted<S: Scalar>(users: Seq<User<S>>, at: i64)
    requires
        spec_le_total::<S>(),
    ensures
        spec_ranked(spec_rank_users(users, at), at),
        spec_rank_users(users, at).to_multiset() == users.to_multiset(),
    decreases users.len(),
{
    if users.len() == 0 {
        assert(users =~= Seq::<User<S>>::empty());
    } else {
        lemma_rank_users_sorted(users.drop_last(), at);
        lemma_insert_ranked_props(spec_rank_users(users.drop_last(), at), users.last(), at);
        users.drop_last().to_multiset_ensures();
        assert(users =~= users.drop_last().push(users.last()));
        assert(users.to_multiset() == users.drop_last().push(users.last()).to_multiset());
        assert(users.drop_last().push(users.last()).to_multiset() =~= users.drop_last(
        ).to_multiset().insert(users.last()));
        assert(spec_rank_users(users, at).to_multiset() =~= users.to_multiset());
    }
}

/// Reads the given users and ranks them by descending conservative score
/// at `at`: the leaderboard order.
pub fn get_leaderboard<S: Scalar, C: MergeCtx<Index = UserId, Item = User<S>>>(
    ctx: &mut C,
    user_ids: &Vec<UserId>,
    at: i64,
) -> (r: Result<Vec<User<S>>, Error>)
    requires
        acyclic(old(ctx).nodes()),
        forall|i: int|
            0 <= i < user_ids@.len() && find_ok(old(ctx).nodes(), (#[trigger] user_ids@[i])@)
                ==> find_value(old(ctx).nodes(), user_ids@[i]@).spec_player().spec_datetime()
                <= at,
    ensures
        acyclic(final(ctx).nodes()),
        uf_preserved(old(ctx).nodes(), final(ctx).nodes()),
        r is Ok <==> (forall|i: int|
            0 <= i < user_ids@.len() ==> find_ok(old(ctx).nodes(), (#[trigger] user_ids@[i])@)),
        r matches Ok(users) ==> users@ == spec_rank_users(
            Seq::new(user_ids@.len(), |i: int| find_value(old(ctx).nodes(), user_ids@[i]@)),
            at,
        ),
{
    let fetched = match read_users(ctx, user_ids) {
        Ok(users) => users,
        Err(e) => {
            return Err(e);
        },
    };
    proof {
        assert(fetched@ =~= Seq::new(
            user_ids@.len(),
            |i: int| find_value(old(ctx).nodes(), user_ids@[i]@),
        ));
    }
    Ok(rank_users(fetched, at))
}

/// Skill message a stored participant brings into a game at `at`.
pub open spec fn spec_prior<S: Scalar>(
    m: NodeMap<Seq<char>, User<S>>,
    kv: Seq<char>,
    at: i64,
) -> Message<S> {
    find_value(m, kv).spec_player().spec_skill_at(at)
}

/// Skill messages of one team, in input order.
pub open spec fn spec_priors<S: Scalar>(
    m: NodeMap<Seq<char>, User<S>>,
    ids: Seq<UserId>,
    at: i64,
) -> Seq<Message<S>> {
    Seq::new(ids.len(), |i: int| spec_prior(m, ids[i]@, at))
}

/// Per-player updates of one game, for the winning and the losing team.
pub open spec fn spec_game_updates<S: Scalar>(
    m: NodeMap<Seq<char>, User<S>>,
    winner_ids: Seq<UserId>,
    loser_ids: Seq<UserId>,
    at: i64,
) -> (Seq<Message<S>>, Seq<Message<S>>) {
    TrueSkill::<S>::spec_new(Player::<S>::spec_default_sigma()).spec_tree_pass(
        spec_priors(m, winner_ids, at),
        spec_priors(m, loser_ids, at),
        GameResult::Won,
    )
}

/// `u2` is the stored participant at `kv` with the update folded into the
/// drifted belief and the fit moment advanced to `at`.
pub open spec fn spec_updated_user<S: Scalar>(
    m: NodeMap<Seq<char>, User<S>>,
    kv: Seq<char>,
    upd: Message<S>,
    at: i64,
    u2: User<S>,
) -> bool {
    let u = find_value(m, kv);
    &&& u2.spec_id() == u.spec_id()
    &&& u2.spec_name() == u.spec_name()
    &&& u2.spec_player().spec_skill() == spec_prior(m, kv, at).spec_combine(upd)
    &&& u2.spec_player().spec_datetime() == at
}

/// Participants resolve to pairwise different trees: each one's rating is
/// stored under a root of its own.
pub open spec fn spec_distinct_roots<S: Scalar>(
    m: NodeMap<Seq<char>, User<S>>,
    ids: Seq<UserId>,
) -> bool {
    forall|i: int, j: int|
        0 <= i < j < ids.len() && find_ok(m, (#[trigger] ids[i])@) && find_ok(
            m,
            (#[trigger] ids[j])@,
        ) ==> root_of(m, ids[i]@) != root_of(m, ids[j]@)
}

/// An exact copy of a vector of ids.
fn clone_ids(ids: &Vec<UserId>) -> (r: Vec<UserId>)
    ensures
        r@ == ids@,
{
    let mut out: Vec<UserId> = Vec::new();
    let mut i: usize = 0;
    while i < ids.len()
        invariant
            i <= ids@.len(),
            out@.len() == i as int,
            forall|j: int| 0 <= j < i as int ==> out@[j] == ids@[j],
        decreases ids@.len() - i,
    {
        out.push(ids[i].clone());
        i = i + 1;
    }
    proof {
        assert(out@ =~= ids@);
    }
    out
}

impl Game {
    /// A copy holding the same identity, moment and teams.
    pub fn duplicate(&self) -> (r: Game)
        ensures
            r.spec_id() == self.spec_id(),
            r.spec_datetime() == self.spec_datetime(),
            r.spec_winner_ids() == self.spec_winner_ids(),
            r.spec_loser_ids() == self.spec_loser_ids(),
    {
        Game {
            id: self.id.clone(),
            datetime: self.datetime,
            winner_ids: clone_ids(&self.winner_ids),
            loser_ids: clone_ids(&self.loser_ids),
        }
    }
}

/// Create a game and update all involved player ratings.
///
/// Resolves every participant through the union-find forest, drifts each
/// stored belief to `datetime`, runs the rating pass with the first team
/// as the winner, folds each update into the drifted belief, and stores
/// the new beliefs at the participants' roots.  The returned commands
/// register the game under its id, in the group's game list and in every
/// participant's game list; the buffered node writes stay in the context.
/// A participant whose stored belief lies in the future of `datetime`
/// aborts the game with a store error.
#[verifier::loop_isolation(false)]
#[verifier::rlimit(100)]
#[verifier::spinoff_prover]
pub fn create_game<S: Scalar, C: MergeCtx<Index = UserId, Item = User<S>>>(
    ctx: &mut C,
    game_id: &GameId,
    winner_ids: &Vec<UserId>,
    loser_ids: &Vec<UserId>,
    datetime: i64,
) -> (r: Result<(Game, Vec<Cmd<S>>), Error>)
    requires
        acyclic(old(ctx).nodes()),
        spec_distinct_roots(old(ctx).nodes(), winner_ids@ + loser_ids@),
    ensures
        acyclic(final(ctx).nodes()),
        merge::same_shape(old(ctx).nodes(), final(ctx).nodes()),
        forall|k: Seq<char>| #[trigger]
            old(ctx).nodes().dom().contains(k) ==> final(ctx).nodes()[k].rank == old(
                ctx,
            ).nodes()[k].rank,
        r is Ok <==> (forall|i: int|
            0 <= i < (winner_ids@ + loser_ids@).len() ==> find_ok(
                old(ctx).nodes(),
                (#[trigger] (winner_ids@ + loser_ids@)[i])@,
            ) && find_value(
                old(ctx).nodes(),
                (winner_ids@ + loser_ids@)[i]@,
            ).spec_player().spec_datetime() <= datetime),
        r matches Ok(p) ==> {
            let m0 = old(ctx).nodes();
            let mf = final(ctx).nodes();
            let parts = winner_ids@ + loser_ids@;
            let ups = spec_game_updates(m0, winner_ids@, loser_ids@, datetime);
            let game = p.0;
            let cmds = p.1;
            &&& game.spec_id() == *game_id
            &&& game.spec_datetime() == datetime
            &&& game.spec_winner_ids() == winner_ids@
            &&& game.spec_loser_ids() == loser_ids@
            &&& forall|i: int|
                0 <= i < winner_ids@.len() ==> spec_updated_user(
                    m0,
                    (#[trigger] winner_ids@[i])@,
                    ups.0[i],
                    datetime,
                    mf[root_of(m0, winner_ids@[i]@)].item,
                )
            &&& forall|i: int|
                0 <= i < loser_ids@.len() ==> spec_updated_user(
                    m0,
                    (#[trigger] loser_ids@[i])@,
                    ups.1[i],
                    datetime,
                    mf[root_of(m0, loser_ids@[i]@)].item,
                )
            &&& forall|k: Seq<char>| #[trigger]
                m0.dom().contains(k) && (forall|j: int|
                    0 <= j < parts.len() ==> k != root_of(m0, (#[trigger] parts[j])@))
                    ==> mf[k].item == m0[k].item
            &&& cmds@.len() == parts.len() + 2
            &&& forall|i: int|
                0 <= i < winner_ids@.len() ==> (#[trigger] cmds@[i]) == Cmd::<S>::ZAddUserGames(
                    winner_ids@[i],
                    *game_id,
                    datetime,
                )
            &&& forall|i: int|
                0 <= i < loser_ids@.len() ==> (#[trigger] cmds@[winner_ids@.len() + i])
                    == Cmd::<S>::ZAddUserGames(loser_ids@[i], *game_id, datetime)
            &&& cmds@[parts.len() as int] is SetGame
            &&& cmds@[parts.len() as int]->SetGame_0.spec_id() == *game_id
            &&& cmds@[parts.len() as int]->SetGame_0.spec_datetime() == datetime
            &&& cmds@[parts.len() as int]->SetGame_0.spec_winner_ids() == winner_ids@
            &&& cmds@[parts.len() as int]->SetGame_0.spec_loser_ids() == loser_ids@
            &&& cmds@[parts.len() as int + 1] == Cmd::<S>::ZAddGames(*game_id, datetime)
        },
        r matches Err(e) ==> uf_preserved(old(ctx).nodes(), final(ctx).nodes()) && ((e is Merge
            && !(forall|i: int|
            0 <= i < (winner_ids@ + loser_ids@).len() ==> find_ok(
                old(ctx).nodes(),
                (#[trigger] (winner_ids@ + loser_ids@)[i])@,
            ))) || (e is Store && (forall|i: int|
            0 <= i < (winner_ids@ + loser_ids@).len() ==> find_ok(
                old(ctx).nodes(),
                (#[trigger] (winner_ids@ + loser_ids@)[i])@,
            )))),
{
    let ghost m0 = ctx.nodes();
    let ghost parts = winner_ids@ + loser_ids@;
    proof {
        lemma_user_id_keys();
    }
    let winners = match read_users(ctx, winner_ids) {
        Ok(users) => users,
        Err(e) => {
            proof {
                assert(!(forall|i: int|
                    0 <= i < parts.len() ==> find_ok(m0, (#[trigger] parts[i])@))) by {
                    let i = choose|i: int|
                        0 <= i < winner_ids@.len() && !find_ok(m0, (#[trigger] winner_ids@[i])@);
                    assert(parts[i] == winner_ids@[i]);
                    assert(!find_ok(m0, (#[trigger] parts[i])@));
                }
            }
            return Err(e);
        },
    };
    let ghost m1 = ctx.nodes();
    let losers = match read_users(ctx, loser_ids) {
        Ok(users) => users,
        Err(e) => {
            proof {
                merge::lemma_uf_preserved_trans(m0, m1, ctx.nodes());
                assert(!(forall|i: int|
                    0 <= i < parts.len() ==> find_ok(m0, (#[trigger] parts[i])@))) by {
                    let i = choose|i: int|
                        0 <= i < loser_ids@.len() && !find_ok(m1, (#[trigger] loser_ids@[i])@);
                    assert(parts[winner_ids@.len() + i] == loser_ids@[i]);
                    assert(!find_ok(m0, (#[trigger] parts[winner_ids@.len() + i])@));
                }
            }
            return Err(e);
        },
    };
    let ghost m2 = ctx.nodes();
    proof {
        merge::lemma_uf_preserved_trans(m0, m1, m2);
        assert forall|i: int| 0 <= i < loser_ids@.len() implies find_ok(
            m0,
            (#[trigger] loser_ids@[i])@,
        ) && losers@[i] == find_value(m0, loser_ids@[i]@) by {
            assert(find_ok(m1, loser_ids@[i]@));
            assert(m0.dom().contains(loser_ids@[i]@));
            merge::lemma_find_idempotent(m0, m1, loser_ids@[i]@);
        }
        assert forall|j: int| 0 <= j < winner_ids@.len() implies (#[trigger] parts[j])
            == winner_ids@[j] by {}
        assert forall|j: int| 0 <= j < loser_ids@.len() implies (#[trigger] parts[winner_ids@.len()
            + j]) == loser_ids@[j] by {}
        assert forall|j: int| 0 <= j < parts.len() implies m0.dom().contains(
            root_of(m0, (#[trigger] parts[j])@),
        ) by {
            merge::lemma_root_in_dom(m0, parts[j]@);
        }
    }
    // drift every participant's belief to the moment of the game
    let mut winner_priors: Vec<Message<S>> = Vec::new();
    let mut i: usize = 0;
    while i < winners.len()
        invariant
            i <= winners@.len(),
            winner_priors@.len() == i as int,
            forall|j: int|
                0 <= j < i as int ==> (#[trigger] winner_priors@[j]) == spec_prior(
                    m0,
                    winner_ids@[j]@,
                    datetime,
                ) && find_value(m0, winner_ids@[j]@).spec_player().spec_datetime() <= datetime,
        decreases winners@.len() - i,
    {
        proof {
            assert(find_ok(m0, winner_ids@[i as int]@) && winners@[i as int] == find_value(
                m0,
                winner_ids@[i as int]@,
            ));
        }
        match winners[i].player().skill_at(datetime) {
            Some(m) => {
                proof {
                    assert(m == spec_prior(m0, winner_ids@[i as int]@, datetime));
                }
                winner_priors.push(m);
            },
            None => {
                proof {
                    assert(find_value(m0, parts[i as int]@).spec_player().spec_datetime()
                        > datetime);
                }
                return Err(Error::Store);
            },
        }
        i = i + 1;
    }
    let mut loser_priors: Vec<Message<S>> = Vec::new();
    let mut i: usize = 0;
    while i < losers.len()
        invariant
            i <= losers@.len(),
            loser_priors@.len() == i as int,
            forall|j: int|
                0 <= j < i as int ==> (#[trigger] loser_priors@[j]) == spec_prior(
                    m0,
                    loser_ids@[j]@,
                    datetime,
                ) && find_value(m0, loser_ids@[j]@).spec_player().spec_datetime() <= datetime,
        decreases losers@.len() - i,
    {
        proof {
            assert(find_ok(m0, loser_ids@[i as int]@) && losers@[i as int] == find_value(
                m0,
                loser_ids@[i as int]@,
            ));
        }
        match losers[i].player().skill_at(datetime) {
            Some(m) => {
                proof {
                    assert(m == spec_prior(m0, loser_ids@[i as int]@, datetime));
                    assert(find_value(
                        m0,
                        loser_ids@[i as int]@,
                    ).spec_player().spec_datetime() <= datetime);
                }
                loser_priors.push(m);
                proof {
                    assert forall|j: int| 0 <= j < i as int + 1 implies ((
                    #[trigger] loser_priors@[j]) == spec_prior(m0, loser_ids@[j]@, datetime)
                        && find_value(m0, loser_ids@[j]@).spec_player().spec_datetime()
                        <= datetime) by {
                        if j == i as int {
                            assert(loser_priors@[j] == m);
                        }
                    }
                }
            },
            None => {
                proof {
                    assert(find_value(
                        m0,
                        parts[winner_ids@.len() + i as int]@,
                    ).spec_player().spec_datetime() > datetime);
                }
                return Err(Error::Store);
            },
        }
        i = i + 1;
    }
    proof {
        assert(winner_priors@ =~= spec_priors(m0, winner_ids@, datetime));
        assert(loser_priors@ =~= spec_priors(m0, loser_ids@, datetime));
    }
    // reason about skills
    let true_skill = TrueSkill::new(Player::<S>::default_sigma());
    let updates = true_skill.tree_pass(&winner_priors, &loser_priors, GameResult::Won);
    let ghost ups = spec_game_updates(m0, winner_ids@, loser_ids@, datetime);
    proof {
        assert(updates.0@ == ups.0 && updates.1@ == ups.1);
    }
    // fold the updates into the stored users
    let mut cmds: Vec<Cmd<S>> = Vec::new();
    let mut i: usize = 0;
    while i < winners.len()
        invariant
            i <= winners@.len(),
            acyclic(ctx.nodes()),
            merge::same_shape(m0, ctx.nodes()),
            forall|k: Seq<char>| #[trigger]
                m0.dom().contains(k) ==> ctx.nodes()[k].rank == m0[k].rank,
            forall|j: int|
                0 <= j < i as int ==> spec_updated_user(
                    m0,
                    (#[trigger] winner_ids@[j])@,
                    ups.0[j],
                    datetime,
                    ctx.nodes()[root_of(m0, winner_ids@[j]@)].item,
                ),
            forall|k: Seq<char>| #[trigger]
                m0.dom().contains(k) && (forall|j: int|
                    0 <= j < i as int ==> k != root_of(m0, (#[trigger] winner_ids@[j])@))
                    ==> ctx.nodes()[k].item == m0[k].item,
            cmds@.len() == i as int,
            forall|j: int|
                0 <= j < i as int ==> (#[trigger] cmds@[j]) == Cmd::<S>::ZAddUserGames(
                    winner_ids@[j],
                    *game_id,
                    datetime,
                ),
        decreases winners@.len() - i,
    {
        let ghost m_cur = ctx.nodes();
        let prior = winner_priors[i];
        let new_skill = prior.combine(&updates.0[i]);
        let user2 = winners[i].with_player(Player::from_parts(new_skill, datetime));
        proof {
            assert(find_ok(m_cur, winner_ids@[i as int]@));
            assert(root_of(m_cur, winner_ids@[i as int]@) == root_of(m0, winner_ids@[i as int]@));
        }
        match merge::set(ctx, winner_ids[i].clone(), user2) {
            Ok(_) => {
            },
            Err(_) => {
                // a resolved participant's tree cannot vanish mid-body
                proof {
                    assert(false);
                }
                return Err(Error::Store);
            },
        }
        proof {
            merge::lemma_same_shape_trans(m0, m_cur, ctx.nodes());
            let ri = root_of(m0, winner_ids@[i as int]@);
            assert(ctx.nodes()[ri].item == user2);
            assert(winners@[i as int] == find_value(m0, winner_ids@[i as int]@));
            assert(winner_priors@[i as int] == spec_prior(m0, winner_ids@[i as int]@, datetime));
            assert(spec_updated_user(m0, winner_ids@[i as int]@, ups.0[i as int], datetime, user2));
            assert forall|j: int| 0 <= j < i as int implies root_of(
                m0,
                (#[trigger] winner_ids@[j])@,
            ) != ri by {
                assert(parts[j] == winner_ids@[j]);
                assert(parts[i as int] == winner_ids@[i as int]);
            }
            assert forall|j: int| 0 <= j < i as int implies spec_updated_user(
                m0,
                (#[trigger] winner_ids@[j])@,
                ups.0[j],
                datetime,
                ctx.nodes()[root_of(m0, winner_ids@[j]@)].item,
            ) by {
                let rj = root_of(m0, winner_ids@[j]@);
                assert(parts[j] == winner_ids@[j]);
                assert(m0.dom().contains(rj));
                assert(rj != ri);
                assert(ctx.nodes()[rj].item == m_cur[rj].item);
            }
            assert forall|k: Seq<char>|
                m0.dom().contains(k) && (forall|j: int|
                    0 <= j < i as int + 1 ==> k != root_of(
                        m0,
                        (#[trigger] winner_ids@[j])@,
                    )) implies ctx.nodes()[k].item == m0[k].item by {
                assert(k != root_of(m0, winner_ids@[i as int]@));
                assert(m_cur[k].item == m0[k].item);
                assert(ctx.nodes()[k].item == m_cur[k].item);
            }
        }
        cmds.push(Cmd::ZAddUserGames(winner_ids[i].clone(), game_id.clone(), datetime));
        i = i + 1;
    }
    let ghost m3 = ctx.nodes();
    proof {
        assert forall|k: Seq<char>|
            m0.dom().contains(k) && (forall|j: int|
                0 <= j < winner_ids@.len() ==> k != root_of(
                    m0,
                    (#[trigger] parts[j])@,
                )) implies m3[k].item == m0[k].item by {
            assert forall|j: int| 0 <= j < winner_ids@.len() implies k != root_of(
                m0,
                (#[trigger] winner_ids@[j])@,
            ) by {
                assert(parts[j] == winner_ids@[j]);
            }
        }
    }
    let mut i: usize = 0;
    while i < losers.len()
        invariant
            i <= losers@.len(),
            acyclic(ctx.nodes()),
            merge::same_shape(m0, ctx.nodes()),
            forall|k: Seq<char>| #[trigger]
                m0.dom().contains(k) ==> ctx.nodes()[k].rank == m0[k].rank,
            forall|j: int|
                0 <= j < winner_ids@.len() ==> spec_updated_user(
                    m0,
                    (#[trigger] winner_ids@[j])@,
                    ups.0[j],
                    datetime,
                    ctx.nodes()[root_of(m0, winner_ids@[j]@)].item,
                ),
            forall|j: int|
                0 <= j < i as int ==> spec_updated_user(
                    m0,
                    (#[trigger] loser_ids@[j])@,
                    ups.1[j],
                    datetime,
                    ctx.nodes()[root_of(m0, loser_ids@[j]@)].item,
                ),
            forall|k: Seq<char>| #[trigger]
                m0.dom().contains(k) && (forall|j: int|
                    0 <= j < winner_ids@.len() + i as int ==> k != root_of(
                        m0,
                        (#[trigger] parts[j])@,
                    )) ==> ctx.nodes()[k].item == m0[k].item,
            cmds@.len() == winner_ids@.len() + i as int,
            forall|j: int|
                0 <= j < winner_ids@.len() ==> (#[trigger] cmds@[j]) == Cmd::<S>::ZAddUserGames(
                    winner_ids@[j],
                    *game_id,
                    datetime,
                ),
            forall|j: int|
                0 <= j < i as int ==> (#[trigger] cmds@[winner_ids@.len() + j])
                    == Cmd::<S>::ZAddUserGames(loser_ids@[j], *game_id, datetime),
        decreases losers@.len() - i,
    {
        let ghost m_cur = ctx.nodes();
        let prior = loser_priors[i];
        let new_skill = prior.combine(&updates.1[i]);
        let user2 = losers[i].with_player(Player::from_parts(new_skill, datetime));
        proof {
            assert(find_ok(m_cur, loser_ids@[i as int]@));
            assert(root_of(m_cur, loser_ids@[i as int]@) == root_of(m0, loser_ids@[i as int]@));
        }
        match merge::set(ctx, loser_ids[i].clone(), user2) {
            Ok(_) => {
            },
            Err(_) => {
                // a resolved participant's tree cannot vanish mid-body
                proof {
                    assert(false);
                }
                return Err(Error::Store);
            },
        }
        proof {
            merge::lemma_same_shape_trans(m0, m_cur, ctx.nodes());
            let ri = root_of(m0, loser_ids@[i as int]@);
            assert(ctx.nodes()[ri].item == user2);
            assert(losers@[i as int] == find_value(m0, loser_ids@[i as int]@));
            assert(loser_priors@[i as int] == spec_prior(m0, loser_ids@[i as int]@, datetime));
            assert(spec_updated_user(m0, loser_ids@[i as int]@, ups.1[i as int], datetime, user2));
            assert forall|j: int| 0 <= j < winner_ids@.len() implies root_of(
                m0,
                (#[trigger] winner_ids@[j])@,
            ) != ri by {
                assert(parts[j] == winner_ids@[j]);
                assert(parts[winner_ids@.len() + i as int] == loser_ids@[i as int]);
            }
            assert forall|j: int| 0 <= j < i as int implies root_of(
                m0,
                (#[trigger] loser_ids@[j])@,
            ) != ri by {
                assert(parts[winner_ids@.len() + j] == loser_ids@[j]);
                assert(parts[winner_ids@.len() + i as int] == loser_ids@[i as int]);
            }
            assert forall|j: int| 0 <= j < winner_ids@.len() implies spec_updated_user(
                m0,
                (#[trigger] winner_ids@[j])@,
                ups.0[j],
                datetime,
                ctx.nodes()[root_of(m0, winner_ids@[j]@)].item,
            ) by {
                let rj = root_of(m0, winner_ids@[j]@);
                assert(parts[j] == winner_ids@[j]);
                assert(m0.dom().contains(rj));
                assert(rj != ri);
                assert(ctx.nodes()[rj].item == m_cur[rj].item);
            }
            assert forall|j: int| 0 <= j < i as int implies spec_updated_user(
                m0,
                (#[trigger] loser_ids@[j])@,
                ups.1[j],
                datetime,
                ctx.nodes()[root_of(m0, loser_ids@[j]@)].item,
            ) by {
                let rj = root_of(m0, loser_ids@[j]@);
                assert(parts[winner_ids@.len() + j] == loser_ids@[j]);
                assert(m0.dom().contains(rj));
                assert(rj != ri);
                assert(ctx.nodes()[rj].item == m_cur[rj].item);
            }
            assert forall|k: Seq<char>|
                m0.dom().contains(k) && (forall|j: int|
                    0 <= j < winner_ids@.len() + i as int + 1 ==> k != root_of(
                        m0,
                        (#[trigger] parts[j])@,
                    )) implies ctx.nodes()[k].item == m0[k].item by {
                assert(k != root_of(m0, parts[winner_ids@.len() + i as int]@));
                assert(m_cur[k].item == m0[k].item);
                assert(ctx.nodes()[k].item == m_cur[k].item);
            }
        }
        cmds.push(Cmd::ZAddUserGames(loser_ids[i].clone(), game_id.clone(), datetime));
        i = i + 1;
    }
    proof {
        assert forall|i2: int| 0 <= i2 < parts.len() implies find_ok(
            m0,
            (#[trigger] parts[i2])@,
        ) && find_value(m0, parts[i2]@).spec_player().spec_datetime() <= datetime by {
            if i2 < winner_ids@.len() {
                assert(parts[i2] == winner_ids@[i2]);
                assert(winner_priors@[i2] == spec_prior(m0, winner_ids@[i2]@, datetime));
            } else {
                assert(parts[i2] == loser_ids@[i2 - winner_ids@.len()]);
                assert(loser_priors@[i2 - winner_ids@.len()] == spec_prior(
                    m0,
                    loser_ids@[i2 - winner_ids@.len()]@,
                    datetime,
                ));
            }
        }
    }
    let game = Game::new(game_id.clone(), datetime, clone_ids(winner_ids), clone_ids(loser_ids));
    cmds.push(Cmd::SetGame(game.duplicate()));
    cmds.push(Cmd::ZAddGames(game_id.clone(), datetime));
    Ok((game, cmds))
}

/// Prefix every key of a group starts with.
pub fn group_key_prefix(group_id: &GroupId) -> (r: String)
    ensures
        r@ == "group:"@ + group_id@,
{
    let mut s = String::from_str("group:");
    s.append(group_id.0.as_str());
    s
}

/// Key of the set holding all user ids of a group.
pub fn user_id_key(group_id: &GroupId) -> (r: String)
    ensures
        r@ == "group:"@ + group_id@ + ":user.id"@,
{
    let mut s = group_key_prefix(group_id);
    s.append(":user.id");
    s
}

/// Key of the lexicographic name index of a group.
pub fn user_name_index_key(group_id: &GroupId) -> (r: String)
    ensures
        r@ == "group:"@ + group_id@ + ":user.name.index"@,
{
    let mut s = group_key_prefix(group_id);
    s.append(":user.name.index");
    s
}

/// Key of one user's stored node.
pub fn user_key(group_id: &GroupId, user_id: &UserId) -> (r: String)
    ensures
        r@ == "group:"@ + group_id@ + ":user:"@ + user_id@,
{
    let mut s = group_key_prefix(group_id);
    s.append(":user:");
    s.append(user_id.0.as_str());
    s
}

/// Key of the per-user list of games.
pub fn user_games_key(group_id: &GroupId, user_id: &UserId) -> (r: String)
    ensures
        r@ == "group:"@ + group_id@ + ":user.games:"@ + user_id@,
{
    let mut s = group_key_prefix(group_id);
    s.append(":user.games:");
    s.append(user_id.0.as_str());
    s
}

/// Key of one game's stored record.
pub fn game_key(group_id: &GroupId, game_id: &GameId) -> (r: String)
    ensures
        r@ == "group:"@ + group_id@ + ":game:"@ + game_id@,
{
    let mut s = group_key_prefix(group_id);
    s.append(":game:");
    s.append(game_id.0.as_str());
    s
}

/// Key of the group-wide list of games.
pub fn games_key(group_id: &GroupId) -> (r: String)
    ensures
        r@ == "group:"@ + group_id@ + ":games"@,
{
    let mut s = group_key_prefix(group_id);
    s.append(":games");
    s
}

} // verus!
