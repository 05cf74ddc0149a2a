//! The authoritative game world: one entry per live player, positions
//! clamped to the eight-by-eight grid.

use vstd::prelude::*;

use crate::decimal::{dec_digits, lemma_dec_digits_ascii, u64_to_dec};
use crate::text::{all_ascii, ascii_chars, lemma_all_ascii_concat, lemma_ascii_decode, lossy_string};

verus! {

/// One live player: a stable id and a grid position.
#[derive(Clone, Copy, Debug, PartialEq, Eq, Structural)]
pub struct Player {
    pub id: u32,
    pub x: i32,
    pub z: i32,
}

/// Positions are confined to the closed range `[0, 7]` on both axes.
pub open spec fn grid_max() -> int {
    7
}

/// A coordinate pulled back into the grid.
pub open spec fn spec_clamp(v: int) -> int {
    if v < 0 {
        0
    } else if v > grid_max() {
        grid_max()
    } else {
        v
    }
}

/// Clamping always lands inside the grid, whatever the magnitude or
/// sign of the move.
pub proof fn lemma_clamp_bounds(v: int)
    ensures
        0 <= spec_clamp(v) <= grid_max(),
{
}

/// The index of the player with the given id, or `-1` when absent.
pub open spec fn find_player(s: Seq<Player>, id: u32) -> int
    decreases s.len(),
{
    if s.len() == 0 {
        -1
    } else if s[0].id == id {
        0
    } else {
        let r = find_player(s.drop_first(), id);
        if r == -1 {
            -1
        } else {
            1 + r
        }
    }
}

/// `find_player` returns the first index holding the id, or `-1` when
/// no entry holds it.
pub proof fn lemma_find_player(s: Seq<Player>, id: u32)
    ensures
        find_player(s, id) == -1 ==> forall|i: int| 0 <= i < s.len() ==> s[i].id != id,
        find_player(s, id) != -1 ==> {
            let k = find_player(s, id);
            &&& 0 <= k < s.len()
            &&& s[k].id == id
            &&& forall|i: int| 0 <= i < k ==> s[i].id != id
        },
    decreases s.len(),
{
    if s.len() == 0 {
    } else if s[0].id == id {
    } else {
        lemma_find_player(s.drop_first(), id);
        assert(forall|i: int| 1 <= i < s.len() ==> s[i] == s.drop_first()[i - 1]);
    }
}

/// A scan that found the id at `i`, or nowhere, agrees with
/// `find_player`.
pub proof fn lemma_find_player_scan(s: Seq<Player>, id: u32, i: int)
    requires
        0 <= i <= s.len(),
        forall|j: int| 0 <= j < i ==> s[j].id != id,
        i < s.len() ==> s[i].id == id,
    ensures
        find_player(s, id) == (if i < s.len() {
            i
        } else {
            -1
        }),
    decreases s.len(),
{
    if s.len() == 0 {
    } else if s[0].id == id {
        assert(i == 0);
    } else {
        assert(i > 0);
        let t = s.drop_first();
        assert(forall|j: int| 0 <= j < i - 1 ==> t[j].id != id);
        lemma_find_player_scan(t, id, i - 1);
    }
}

/// Well-formed world contents: ids unique, positions on the grid.
pub open spec fn world_wf(s: Seq<Player>) -> bool {
    &&& forall|i: int, j: int| 0 <= i < j < s.len() ==> s[i].id != s[j].id
    &&& forall|i: int|
        0 <= i < s.len() ==> {
            &&& 0 <= (#[trigger] s[i]).x <= grid_max()
            &&& 0 <= s[i].z <= grid_max()
        }
}

/// The starting position of a freshly added player.
pub open spec fn spawn(id: u32) -> Player {
    Player { id, x: 3, z: 3 }
}

/// Adding a player: a fresh id is appended at the spawn position; an
/// existing id is reset to it.
pub open spec fn spec_add(s: Seq<Player>, id: u32) -> Seq<Player> {
    let k = find_player(s, id);
    if k == -1 {
        s.push(spawn(id))
    } else {
        s.update(k, spawn(id))
    }
}

/// Moving a player: deltas are added and the result clamped to the
/// grid; an unknown id leaves the world unchanged.
pub open spec fn spec_move(s: Seq<Player>, id: u32, dx: int, dz: int) -> Seq<Player> {
    let k = find_player(s, id);
    if k == -1 {
        s
    } else {
        s.update(
            k,
            Player {
                id,
                x: spec_clamp(s[k].x + dx) as i32,
                z: spec_clamp(s[k].z + dz) as i32,
            },
        )
    }
}

/// Removing a player: the entry with the id leaves; an unknown id
/// changes nothing.
pub open spec fn spec_remove(s: Seq<Player>, id: u32) -> Seq<Player> {
    let k = find_player(s, id);
    if k == -1 {
        s
    } else {
        s.remove(k)
    }
}

/// The entry a world holds for an id.
pub open spec fn lookup(s: Seq<Player>, id: u32) -> Option<Player> {
    let k = find_player(s, id);
    if k == -1 {
        None
    } else {
        Some(s[k])
    }
}

/// `find_player` depends only on the ids, position by position.
pub proof fn lemma_find_player_same_ids(s: Seq<Player>, t: Seq<Player>, id: u32)
    requires
        s.len() == t.len(),
        forall|i: int| 0 <= i < s.len() ==> s[i].id == t[i].id,
    ensures
        find_player(s, id) == find_player(t, id),
    decreases s.len(),
{
    if s.len() == 0 {
    } else {
        assert(forall|i: int|
            0 <= i < s.drop_first().len() ==> s.drop_first()[i].id == t.drop_first()[i].id);
        lemma_find_player_same_ids(s.drop_first(), t.drop_first(), id);
    }
}

/// Moving one player leaves every other player's entry unchanged.
pub proof fn lemma_move_preserves_others(s: Seq<Player>, mover: u32, dx: int, dz: int, id: u32)
    requires
        id != mover,
    ensures
        lookup(spec_move(s, mover, dx, dz), id) == lookup(s, id),
{
    lemma_find_player(s, mover);
    let k = find_player(s, mover);
    if k != -1 {
        let t = spec_move(s, mover, dx, dz);
        assert(forall|i: int| 0 <= i < s.len() ==> s[i].id == t[i].id);
        lemma_find_player_same_ids(s, t, id);
        lemma_find_player(s, id);
        let j = find_player(s, id);
        if j != -1 {
            assert(j != k);
            assert(t[j] == s[j]);
        }
    }
}

/// A player's entry after its own move is that move applied to its
/// old entry, exactly once.
pub proof fn lemma_move_own_entry(s: Seq<Player>, id: u32, dx: int, dz: int)
    ensures
        lookup(spec_move(s, id, dx, dz), id) == (match lookup(s, id) {
            Some(p) => Some(
                Player { id, x: spec_clamp(p.x + dx) as i32, z: spec_clamp(p.z + dz) as i32 },
            ),
            None => None,
        }),
{
    lemma_find_player(s, id);
    let k = find_player(s, id);
    if k != -1 {
        let t = spec_move(s, id, dx, dz);
        assert(forall|i: int| 0 <= i < s.len() ==> s[i].id == t[i].id);
        lemma_find_player_same_ids(s, t, id);
        assert(t[k] == Player {
            id,
            x: spec_clamp(s[k].x + dx) as i32,
            z: spec_clamp(s[k].z + dz) as i32,
        });
    }
}

/// The leading bytes of every update report.
pub open spec fn update_prefix() -> Seq<u8> {
    seq![117u8, 112u8, 100u8, 97u8, 116u8, 101u8, 32u8]
}

/// One player's report entry: id, x and z in decimal, space-separated.
pub open spec fn player_triple(p: Player) -> Seq<u8> {
    dec_digits(p.id as nat) + seq![32u8] + dec_digits(p.x as nat) + seq![32u8] + dec_digits(
        p.z as nat,
    )
}

/// All players' entries, space-separated, in world order.
pub open spec fn joined_triples(s: Seq<Player>) -> Seq<u8>
    decreases s.len(),
{
    if s.len() == 0 {
        Seq::empty()
    } else if s.len() == 1 {
        player_triple(s[0])
    } else {
        joined_triples(s.drop_last()) + seq![32u8] + player_triple(s.last())
    }
}

/// The whole update report: the word `update`, the player count, then
/// one triple per player.
pub open spec fn update_bytes(s: Seq<Player>) -> Seq<u8> {
    update_prefix() + dec_digits(s.len() as nat) + seq![32u8] + joined_triples(s)
}

/// Every byte of a player entry is ASCII.
pub proof fn lemma_triple_ascii(p: Player)
    ensures
        all_ascii(player_triple(p)),
{
    lemma_dec_digits_ascii(p.id as nat);
    lemma_dec_digits_ascii(p.x as nat);
    lemma_dec_digits_ascii(p.z as nat);
    lemma_all_ascii_concat(dec_digits(p.id as nat), seq![32u8]);
    lemma_all_ascii_concat(dec_digits(p.id as nat) + seq![32u8], dec_digits(p.x as nat));
    lemma_all_ascii_concat(
        dec_digits(p.id as nat) + seq![32u8] + dec_digits(p.x as nat),
        seq![32u8],
    );
    lemma_all_ascii_concat(
        dec_digits(p.id as nat) + seq![32u8] + dec_digits(p.x as nat) + seq![32u8],
        dec_digits(p.z as nat),
    );
}

/// Every byte of the joined entries is ASCII.
pub proof fn lemma_joined_ascii(s: Seq<Player>)
    ensures
        all_ascii(joined_triples(s)),
    decreases s.len(),
{
    if s.len() == 0 {
    } else if s.len() == 1 {
        lemma_triple_ascii(s[0]);
    } else {
        lemma_joined_ascii(s.drop_last());
        lemma_triple_ascii(s.last());
        lemma_all_ascii_concat(joined_triples(s.drop_last()), seq![32u8]);
        lemma_all_ascii_concat(joined_triples(s.drop_last()) + seq![32u8], player_triple(s.last()));
    }
}

/// Every byte of the update report is ASCII.
pub proof fn lemma_update_bytes_ascii(s: Seq<Player>)
    ensures
        all_ascii(update_bytes(s)),
{
    lemma_dec_digits_ascii(s.len() as nat);
    lemma_joined_ascii(s);
    lemma_all_ascii_concat(update_prefix(), dec_digits(s.len() as nat));
    lemma_all_ascii_concat(update_prefix() + dec_digits(s.len() as nat), seq![32u8]);
    lemma_all_ascii_concat(
        update_prefix() + dec_digits(s.len() as nat) + seq![32u8],
        joined_triples(s),
    );
}

/// The world: the single authoritative owner of all live players.
pub struct World {
    players: Vec<Player>,
}

impl View for World {
    type V = Seq<Player>;

    closed spec fn view(&self) -> Seq<Player> {
        self.players@
    }
}

impl World {
    pub open spec fn wf(&self) -> bool {
        world_wf(self@)
    }

    pub fn new() -> (r: Self)
        ensures
            r.wf(),
            r@ == Seq::<Player>::empty(),
    {
        let r = World { players: Vec::new() };
        proof {
            assert(r@ =~= Seq::<Player>::empty());
        }
        r
    }

    /// The index of the player with this id, if present.
    fn find(&self, id: u32) -> (r: Option<usize>)
        ensures
            match r {
                Some(k) => find_player(self@, id) == k as int && k < self@.len(),
                None => find_player(self@, id) == -1,
            },
    {
        let mut i: usize = 0;
        while i < self.players.len()
            invariant
                i <= self@.len(),
                forall|j: int| 0 <= j < i ==> self@[j].id != id,
            decreases self@.len() - i,
        {
            if self.players[i].id == id {
                proof {
                    lemma_find_player_scan(self@, id, i as int);
                }
                return Some(i);
            }
            i = i + 1;
        }
        proof {
            lemma_find_player_scan(self@, id, i as int);
        }
        None
    }

    pub fn add_player(&mut self, id: u32)
        requires
            old(self).wf(),
        ensures
            final(self).wf(),
            final(self)@ == spec_add(old(self)@, id),
    {
        proof {
            lemma_find_player(self@, id);
        }
        match self.find(id) {
            Some(k) => {
                self.players[k] = Player { id, x: 3, z: 3 };
            },
            None => {
                self.players.push(Player { id, x: 3, z: 3 });
            },
        }
    }

    pub fn move_player(&mut self, id: u32, dx: i32, dz: i32)
        requires
            old(self).wf(),
        ensures
            final(self).wf(),
            final(self)@ == spec_move(old(self)@, id, dx as int, dz as int),
    {
        proof {
            lemma_find_player(self@, id);
        }
        match self.find(id) {
            Some(k) => {
                let p = self.players[k];
                let nx = clamp_i64(p.x as i64 + dx as i64);
                let nz = clamp_i64(p.z as i64 + dz as i64);
                self.players[k] = Player { id, x: nx, z: nz };
            },
            None => {},
        }
    }

    /// Renders the committed state: `update <count>` followed by one
    /// `<id> <x> <z>` triple per live player, in world order.
    pub fn update_message(&self) -> (r: String)
        requires
            self.wf(),
        ensures
            r@ == ascii_chars(update_bytes(self@)),
    {
        let mut out: Vec<u8> = Vec::new();
        out.push(117u8);
        out.push(112u8);
        out.push(100u8);
        out.push(97u8);
        out.push(116u8);
        out.push(101u8);
        out.push(32u8);
        proof {
            assert(out@ =~= update_prefix());
        }
        append_dec(&mut out, self.players.len() as u64);
        out.push(32u8);
        proof {
            assert(out@ =~= update_prefix() + dec_digits(self@.len() as nat) + seq![32u8]
                + joined_triples(self@.take(0)));
        }
        let ghost head = update_prefix() + dec_digits(self@.len() as nat) + seq![32u8];
        let mut k: usize = 0;
        while k < self.players.len()
            invariant
                self.wf(),
                k <= self@.len(),
                head == update_prefix() + dec_digits(self@.len() as nat) + seq![32u8],
                out@ == head + joined_triples(self@.take(k as int)),
            decreases self@.len() - k,
        {
            if k > 0 {
                out.push(32u8);
            }
            let p = self.players[k];
            append_dec(&mut out, p.id as u64);
            out.push(32u8);
            append_dec(&mut out, p.x as u64);
            out.push(32u8);
            append_dec(&mut out, p.z as u64);
            proof {
                assert(self@.take(k + 1).drop_last() =~= self@.take(k as int));
                assert(self@.take(k + 1).last() == self@[k as int]);
                assert(out@ =~= head + joined_triples(self@.take(k + 1)));
            }
            k = k + 1;
        }
        proof {
            assert(self@.take(self@.len() as int) =~= self@);
            assert(out@ == update_bytes(self@));
            lemma_update_bytes_ascii(self@);
            lemma_ascii_decode(out@);
        }
        lossy_string(out.as_slice())
    }

    pub fn remove_player(&mut self, id: u32)
        requires
            old(self).wf(),
        ensures
            final(self).wf(),
            final(self)@ == spec_remove(old(self)@, id),
    {
        proof {
            lemma_find_player(self@, id);
        }
        match self.find(id) {
            Some(k) => {
                self.players.remove(k);
            },
            None => {},
        }
    }
}

/// Appends the decimal rendering of `n`.
fn append_dec(out: &mut Vec<u8>, n: u64)
    ensures
        final(out)@ == old(out)@ + dec_digits(n as nat),
{
    let mut d = u64_to_dec(n);
    out.append(&mut d);
}

/// Pulls a coordinate back onto the grid.
fn clamp_i64(v: i64) -> (r: i32)
    ensures
        r as int == spec_clamp(v as int),
{
    if v < 0 {
        0
    } else if v > 7 {
        7
    } else {
        v as i32
    }
}

} // verus!
