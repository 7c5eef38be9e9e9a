use vstd::prelude::*;
use crate::kniffel::{
    open_categories, entry_effect, PointTable,
    Dice, DiceThrow, Game, Player, PlayerKind, calculate_points, three_same, four_same, next_player, throw_dice,
    change_blocked_status_dice, add_dice_point_table, point_table_full, points_defined, entry_defined, entered,
    points_of, totals_fit, eyes_of, sum_of, n_of_a_kind, count_of, straight_defined, slot_sum, slot_points,
    upper_sum, lower_sum, with_bonus, all_tables_full, lead_max, winner_list, fresh_player,
};
use crate::kniffel_bot::{bot_game_turn, dice_in_range, turn_safe, category_cap, throw_after};
use crate::text::{decimal, decimal_text};

verus! {

/// The number of categories on a score sheet.
pub const CATEGORIES: usize = 13;

fn sum_entries(pts: &[Option<u8>; 13], lo: usize, hi: usize) -> (r: u32)
    requires
        lo <= hi <= 13,
    ensures
        r == slot_sum(pts@, lo as int, hi as int),
        r <= 255 * (hi - lo),
{
    let mut sum: u32 = 0;
    let mut i: usize = lo;
    while i < hi
        invariant
            lo <= i <= hi <= 13,
            sum == slot_sum(pts@, lo as int, i as int),
            sum <= 255 * (i - lo),
        decreases hi - i,
    {
        match pts[i] {
            Some(p) => {
                sum = sum + p as u32;
            },
            None => {},
        }
        i = i + 1;
    }
    sum
}

/// Whether all four totals of a sheet with these entries fit into a byte.
fn entries_fit(pts: &[Option<u8>; 13]) -> (r: bool)
    ensures
        r == totals_fit(pts@),
{
    let upper = sum_entries(pts, 0, 6);
    let lower = sum_entries(pts, 6, 13);
    let bonus: u32 = if upper > 62 { upper + 35 } else { upper };
    bonus + lower <= 255
}

/// Whether every die shows at most six eyes.
pub fn dice_ok(t: &DiceThrow) -> (r: bool)
    ensures
        r == dice_in_range(*t),
{
    let mut i: usize = 0;
    while i < 5
        invariant
            0 <= i <= 5,
            forall|j: int| 0 <= j < i ==> #[trigger] t[j].eyes <= 6,
        decreases 5 - i,
    {
        if t[i].eyes > 6 {
            return false;
        }
        i = i + 1;
    }
    true
}

/// Whether the points of `category` for the throw `t` can be counted in a byte.
fn points_countable(category: usize, t: &DiceThrow) -> (r: bool)
    ensures
        r == points_defined(category, *t),
{
    let c = category as u8;
    let sum: u32 = t[0].eyes as u32 + t[1].eyes as u32 + t[2].eyes as u32 + t[3].eyes as u32 + t[4].eyes as u32;
    let maxed: u32 = (if t[0].eyes == 255 { 1u32 } else { 0 }) + (if t[1].eyes == 255 { 1u32 } else { 0 }) + (if t[2].eyes
        == 255 { 1u32 } else { 0 }) + (if t[3].eyes == 255 { 1u32 } else { 0 }) + (if t[4].eyes == 255 { 1u32 } else { 0 });
    proof {
        crate::kniffel::lemma_count_five(eyes_of(*t), 255);
    }
    let three = three_same(*t);
    let four = four_same(*t);
    let a = !(c == 6 && three) || sum <= 255;
    let b = !(c == 7 && four) || sum <= 255;
    let d = !(c == 12) || sum <= 255;
    let e = !(c == 10) || maxed <= 1;
    a && b && d && e
}

/// What entering the throw in `category` asks of the current sheet: its points can be
/// counted, and an open category takes them without a total leaving its byte.
pub open spec fn entry_needs(p: Player, category: usize) -> bool {
    &&& points_defined(category, p.dice_throw)
    &&& p.point_table.points_thrown[category as int] is None ==> entry_defined(p, category)
}

/// Whether the current throw can be entered in `category` of the current player's sheet.
pub fn entry_possible(p: &Player, category: usize) -> (r: bool)
    requires
        category < 13,
    ensures
        r == entry_needs(*p, category),
{
    if !points_countable(category, &p.dice_throw) {
        return false;
    }
    if p.point_table.points_thrown[category].is_some() {
        return true;
    }
    let points = calculate_points(category, p.dice_throw);
    let mut pts = p.point_table.points_thrown;
    pts[category] = Some(points);
    assert(pts@ =~= entered(p.point_table.points_thrown@, category, points_of(category, p.dice_throw)));
    entries_fit(&pts)
}

/// Whether an open category can take the current throw (a filled one always can: it
/// stays as it is).
pub fn entry_fits(p: &Player, category: usize) -> (r: bool)
    requires
        category < 13,
    ensures
        r == (p.point_table.points_thrown[category as int] is None ==> entry_defined(*p, category)),
{
    if p.point_table.points_thrown[category].is_some() {
        return true;
    }
    entry_possible(p, category)
}

/// Whether each open category can take its highest possible points.
pub fn sheet_safe(p: &Player) -> (r: bool)
    ensures
        r == turn_safe(*p),
{
    let mut c: usize = 0;
    while c < 13
        invariant
            0 <= c <= 13,
            forall|k: usize| k < c && #[trigger] p.point_table.points_thrown[k as int] is None
                ==> totals_fit(entered(p.point_table.points_thrown@, k, category_cap(k))),
        decreases 13 - c,
    {
        if p.point_table.points_thrown[c].is_none() {
            let cap: u8 = if c <= 5 {
                5 * (c as u8 + 1)
            } else if c == 8 {
                25
            } else if c == 10 {
                40
            } else if c == 11 {
                50
            } else {
                30
            };
            let mut pts = p.point_table.points_thrown;
            pts[c] = Some(cap);
            assert(pts@ =~= entered(p.point_table.points_thrown@, c, category_cap(c)));
            if !entries_fit(&pts) {
                return false;
            }
        }
        c = c + 1;
    }
    true
}

/// The screens of a Kniffel session.
#[derive(PartialEq, Eq, Structural, Debug, Clone, Copy)]
pub enum Screen {
    Menu,
    LocalSetup,
    InGame,
    WaitingForOpponent,
}

/// What the opponent's side sends over the network, as far as a Kniffel session reads it.
pub enum RemoteMessage {
    /// The opponent threw: the eyes of its dice and its count of throws, where they came
    /// along as numbers.
    DiceThrow { dice: Vec<Option<u64>>, throws: Option<u64> },
    /// The opponent put a die aside or took it back.
    DiceLock { index: Option<u64> },
    /// The opponent entered points in a category.
    Category { category: Option<u64>, points: Option<u64> },
    /// Someone joined this side's room.
    OpponentJoined,
    /// Anything else.
    Other,
}

/// A Kniffel session: the screen, the chosen numbers of people and computer players,
/// the points shown on the buttons of the score table (one row per player), the game,
/// this side's seat in a game over the network, and the room.
pub struct KniffelGame {
    pub screen: Screen,
    pub players: usize,
    pub player_buttons: Vec<Vec<Option<u32>>>,
    pub bots: usize,
    pub game: Game,
    pub multiplayer: Option<usize>,
    pub room_key: String,
}

/// `n` rows of 13 empty buttons.
fn empty_buttons(n: usize) -> (r: Vec<Vec<Option<u32>>>)
    ensures
        r@.len() == n,
        forall|i: int| 0 <= i < n ==> (#[trigger] r@[i])@.len() == 13,
        forall|i: int, c: int| 0 <= i < n && 0 <= c < 13 ==> (#[trigger] r@[i]@[c]) is None,
{
    let mut rows: Vec<Vec<Option<u32>>> = Vec::new();
    let mut i: usize = 0;
    while i < n
        invariant
            0 <= i <= n,
            rows@.len() == i,
            forall|k: int| 0 <= k < i ==> (#[trigger] rows@[k])@.len() == 13,
            forall|k: int, c: int| 0 <= k < i && 0 <= c < 13 ==> (#[trigger] rows@[k]@[c]) is None,
        decreases n - i,
    {
        let row: Vec<Option<u32>> = vec![None; 13];
        rows.push(row);
        i = i + 1;
    }
    rows
}

/// `new` is a fresh game of `humans` people followed by `bots` computer players.
pub open spec fn fresh_game(g: Game, humans: int, bots: int) -> bool {
    &&& g.number_of_players == humans + bots
    &&& g.all_players@.len() == humans + bots
    &&& forall|i: int| 0 <= i < humans ==> fresh_player(#[trigger] g.all_players@[i], PlayerKind::Human)
    &&& forall|i: int| humans <= i < humans + bots ==> fresh_player(#[trigger] g.all_players@[i], PlayerKind::Bot)
    &&& g.current_player == g.all_players@[0]
    &&& g.current_player_index == 0
}

/// This side may act: in a local game always, over the network when its seat is to move.
pub open spec fn local_turn(s: KniffelGame) -> bool {
    match s.multiplayer {
        Some(seat) => seat == s.game.current_player_index,
        None => true,
    }
}

/// The button of `category` in the row of `player_index` can be pressed: it is that
/// player's turn (and, over the network, this side's seat), the button is empty, and
/// the dice have been thrown.
pub open spec fn category_open(s: KniffelGame, player_index: usize, category: usize) -> bool {
    let current = player_index == s.game.current_player_index;
    &&& match s.multiplayer {
        Some(seat) => seat == player_index && current,
        None => current,
    }
    &&& s.player_buttons@[player_index as int]@[category as int] is None
    &&& s.game.current_player.number_of_throws > 0
}

impl KniffelGame {
    /// The game has two to four players, the current one among them, and a row of 13
    /// buttons for each.
    pub open spec fn wf(&self) -> bool {
        &&& self.game.number_of_players == self.game.all_players@.len()
        &&& 2 <= self.game.number_of_players <= 4
        &&& self.game.current_player_index < self.game.number_of_players
        &&& self.player_buttons@.len() == self.game.number_of_players
        &&& forall|i: int| 0 <= i < self.player_buttons@.len() ==> (#[trigger] self.player_buttons@[i])@.len() == 13
    }

    /// The menu, with a game of two people ready.
    pub fn new() -> (r: KniffelGame)
        ensures
            r.wf(),
            r.screen == Screen::Menu,
            r.players == 2,
            r.bots == 0,
            fresh_game(r.game, 2, 0),
            forall|i: int, c: int| 0 <= i < 2 && 0 <= c < 13 ==> (#[trigger] r.player_buttons@[i]@[c]) is None,
            r.multiplayer is None,
            r.room_key@ == Seq::<char>::empty(),
    {
        let game = Game::new(2, 0).unwrap();
        KniffelGame {
            screen: Screen::Menu,
            players: 2,
            player_buttons: empty_buttons(2),
            bots: 0,
            game,
            multiplayer: None,
            room_key: String::new(),
        }
    }

    pub fn set_room_key_text(&mut self, text: String)
        ensures
            *final(self) == (KniffelGame { room_key: text, ..*old(self) }),
    {
        self.room_key = text;
    }

    /// "Lokal Spielen": the setup screen. Nothing is passed on.
    pub fn local_button_clicked(&mut self, player_counter: Option<u16>) -> (r: Option<u16>)
        ensures
            r is None,
            *final(self) == (KniffelGame { screen: Screen::LocalSetup, ..*old(self) }),
    {
        self.screen = Screen::LocalSetup;
        None
    }

    /// A game against the computer: the setup screen too. Nothing is passed on.
    pub fn bot_button_clicked(&mut self, bot_level: Option<u16>) -> (r: Option<u16>)
        ensures
            r is None,
            *final(self) == (KniffelGame { screen: Screen::LocalSetup, ..*old(self) }),
    {
        self.screen = Screen::LocalSetup;
        None
    }

    /// "Zurück" on the setup screen.
    pub fn back_clicked(&mut self)
        ensures
            *final(self) == (KniffelGame { screen: Screen::Menu, ..*old(self) }),
    {
        self.screen = Screen::Menu;
    }

    /// "Spiel starten": a fresh game of the chosen people and computer players.
    pub fn start_local_game(&mut self)
        requires
            2 <= old(self).players + old(self).bots <= 4,
        ensures
            final(self).wf(),
            final(self).screen == Screen::InGame,
            fresh_game(final(self).game, old(self).players as int, old(self).bots as int),
            forall|i: int, c: int| 0 <= i < final(self).player_buttons@.len() && 0 <= c < 13
                ==> (#[trigger] final(self).player_buttons@[i]@[c]) is None,
            final(self).players == old(self).players,
            final(self).bots == old(self).bots,
            final(self).multiplayer == old(self).multiplayer,
            final(self).room_key == old(self).room_key,
    {
        self.game = Game::new(self.players, self.bots).unwrap();
        self.player_buttons = empty_buttons(self.players + self.bots);
        self.screen = Screen::InGame;
    }

    /// A room was created on the server: wait for the opponent.
    pub fn host_created(&mut self, room_id: String)
        ensures
            *final(self) == (KniffelGame { room_key: room_id, screen: Screen::WaitingForOpponent, ..*old(self) }),
    {
        self.room_key = room_id;
        self.screen = Screen::WaitingForOpponent;
    }

    /// A game over the network starts: two people; the side that waited in its room
    /// takes the first seat, the side that joined the second.
    pub fn start_multiplayer_game(&mut self)
        ensures
            multiplayer_started(*old(self), *final(self)),
    {
        self.game = Game::new(2, 0).unwrap();
        self.player_buttons = empty_buttons(2);
        self.players = 2;
        self.bots = 0;
        if self.screen == Screen::WaitingForOpponent {
            self.multiplayer = Some(0);
        } else {
            self.multiplayer = Some(1);
        }
        self.screen = Screen::InGame;
    }

    fn is_local_turn(&self) -> (r: bool)
        ensures
            r == local_turn(*self),
    {
        match self.multiplayer {
            Some(seat) => seat == self.game.current_player_index,
            None => true,
        }
    }

    /// "Würfeln": the current player throws, if a throw is left and it is this side's
    /// turn. Returns whether the throw is to be sent to the opponent.
    pub fn throw_clicked(&mut self) -> (r: bool)
        requires
            old(self).wf(),
        ensures
            final(self).wf(),
            ({
                let s = *old(self);
                if s.game.current_player.number_of_throws < 3 && local_turn(s) {
                    &&& r == s.multiplayer is Some
                    &&& final(self).game.current_player.number_of_throws == s.game.current_player.number_of_throws + 1
                    &&& final(self).game.current_player.point_table == s.game.current_player.point_table
                    &&& final(self).game.current_player_index == s.game.current_player_index
                    &&& final(self).game.current_player.kind == s.game.current_player.kind
                    &&& final(self).game.number_of_players == s.game.number_of_players
                    &&& final(self).game.all_players@ == s.game.all_players@.update(
                        s.game.current_player_index as int, final(self).game.current_player)
                    &&& final(self).room_key == s.room_key
                    &&& forall|i: int| 0 <= i < 5 ==> {
                        let before = #[trigger] s.game.current_player.dice_throw[i];
                        let after = final(self).game.current_player.dice_throw[i];
                        &&& after.is_locked == before.is_locked
                        &&& before.is_locked ==> after.eyes == before.eyes
                        &&& !before.is_locked ==> 1 <= after.eyes <= 6
                    }
                } else {
                    &&& !r
                    &&& *final(self) == s
                }
            }),
            final(self).player_buttons == old(self).player_buttons,
            final(self).screen == old(self).screen,
            final(self).multiplayer == old(self).multiplayer,
    {
        if self.game.current_player.number_of_throws < 3 && self.is_local_turn() {
            throw_dice(&mut self.game);
            self.multiplayer.is_some()
        } else {
            false
        }
    }

    /// A click on die `dice_index`: on this side's turn it is put aside or taken back.
    /// Returns whether that is to be sent to the opponent.
    pub fn dice_clicked(&mut self, dice_index: usize) -> (r: bool)
        requires
            old(self).wf(),
            dice_index < 5,
        ensures
            final(self).wf(),
            local_turn(*old(self)) ==> {
                &&& r == old(self).multiplayer is Some
                &&& final(self).game.current_player.dice_throw@ == old(self).game.current_player.dice_throw@.update(
                    dice_index as int,
                    Dice {
                        is_locked: !old(self).game.current_player.dice_throw[dice_index as int].is_locked,
                        ..old(self).game.current_player.dice_throw[dice_index as int]
                    },
                )
                &&& final(self).game.current_player.number_of_throws == old(self).game.current_player.number_of_throws
                &&& final(self).game.current_player.point_table == old(self).game.current_player.point_table
                &&& final(self).game.all_players == old(self).game.all_players
                &&& final(self).game.current_player_index == old(self).game.current_player_index
            },
            !local_turn(*old(self)) ==> !r && *final(self) == *old(self),
            final(self).player_buttons == old(self).player_buttons,
            final(self).screen == old(self).screen,
            final(self).multiplayer == old(self).multiplayer,
    {
        if self.is_local_turn() {
            change_blocked_status_dice(&mut self.game, dice_index);
            self.multiplayer.is_some()
        } else {
            false
        }
    }

    /// Whether the button of `category` in the row of `player_index` can be pressed.
    pub fn category_clickable(&self, player_index: usize, category: usize) -> (r: bool)
        requires
            self.wf(),
            player_index < self.game.number_of_players,
            category < 13,
        ensures
            r == category_open(*self, player_index, category),
    {
        let current = player_index == self.game.current_player_index;
        let mine = match self.multiplayer {
            Some(seat) => seat == player_index && current,
            None => current,
        };
        mine && self.player_buttons[player_index][category].is_none() && self.game.current_player.number_of_throws > 0
    }

    /// Sets the button of `category` in row `row` to `value`.
    fn set_button(&mut self, row: usize, category: usize, value: Option<u32>)
        requires
            old(self).wf(),
            row < old(self).player_buttons@.len(),
            category < 13,
        ensures
            final(self).wf(),
            final(self).game == old(self).game,
            final(self).player_buttons@.len() == old(self).player_buttons@.len(),
            forall|i: int| 0 <= i < final(self).player_buttons@.len() && i != row
                ==> #[trigger] final(self).player_buttons@[i] == old(self).player_buttons@[i],
            final(self).player_buttons@[row as int]@ == old(self).player_buttons@[row as int]@.update(category as int, value),
            final(self).screen == old(self).screen,
            final(self).players == old(self).players,
            final(self).bots == old(self).bots,
            final(self).multiplayer == old(self).multiplayer,
            final(self).room_key == old(self).room_key,
    {
        let mut line = self.player_buttons.remove(row);
        line.set(category, value);
        self.player_buttons.insert(row, line);
        proof {
            assert forall|i: int| 0 <= i < self.player_buttons@.len() implies (#[trigger] self.player_buttons@[i])@.len() == 13 by {
                if i != row {
                    assert(self.player_buttons@[i] == old(self).player_buttons@[i]);
                }
            }
        }
    }

    /// Writes `points` into `category` of the stored sheet of player `index`.
    fn store_entry(&mut self, index: usize, category: usize, points: u8)
        requires
            old(self).wf(),
            index < old(self).game.all_players@.len(),
            category < 13,
        ensures
            final(self).wf(),
            final(self).game.all_players@ == old(self).game.all_players@.update(index as int, stored_entry(
                old(self).game.all_players@[index as int], category, points)),
            final(self).game.current_player == old(self).game.current_player,
            final(self).game.current_player_index == old(self).game.current_player_index,
            final(self).game.number_of_players == old(self).game.number_of_players,
            final(self).player_buttons == old(self).player_buttons,
            final(self).screen == old(self).screen,
            final(self).players == old(self).players,
            final(self).bots == old(self).bots,
            final(self).multiplayer == old(self).multiplayer,
            final(self).room_key == old(self).room_key,
    {
        let mut p = self.game.all_players[index];
        p.point_table.points_thrown[category] = Some(points);
        proof {
            let want = stored_entry(old(self).game.all_players@[index as int], category, points);
            assert(p.point_table.points_thrown@ =~= want.point_table.points_thrown@);
            assert(p.point_table.points_thrown =~= want.point_table.points_thrown);
        }
        self.game.all_players.set(index, p);
    }

    /// A click on the button of `category` in the row of `player_index`: if it can be
    /// pressed, the current throw is entered there, and the turn passes on. Returns the
    /// points entered (to be sent to the opponent over the network).
    pub fn category_clicked(&mut self, player_index: usize, category: usize) -> (r: Option<u8>)
        requires
            old(self).wf(),
            category < 13,
            player_index < old(self).game.number_of_players,
            category_open(*old(self), player_index, category) ==> entry_needs(old(self).game.current_player, category),
        ensures
            final(self).wf(),
            !category_open(*old(self), player_index, category) ==> r is None && *final(self) == *old(self),
            category_open(*old(self), player_index, category) ==> {
                let s = *old(self);
                let p0 = s.game.current_player;
                let idx = s.game.current_player_index;
                let points = points_of(category, p0.dice_throw);
                let next = (idx + 1) % (s.game.number_of_players as int);
                &&& r == Some(points as u8)
                &&& final(self).player_buttons@.len() == s.player_buttons@.len()
                &&& forall|i: int| 0 <= i < s.player_buttons@.len() && i != player_index
                    ==> #[trigger] final(self).player_buttons@[i] == s.player_buttons@[i]
                &&& final(self).player_buttons@[player_index as int]@ == s.player_buttons@[player_index as int]@.update(
                    category as int, Some(points as u32))
                &&& p0.point_table.points_thrown[category as int] is None ==> exists|g1: Game|
                    #[trigger] entry_effect(s.game, g1, category) && final(self).game.all_players@ == g1.all_players@
                &&& p0.point_table.points_thrown[category as int] is Some ==> final(self).game.all_players@
                    == s.game.all_players@.update(idx as int, stored_entry(s.game.all_players@[idx as int], category, points as u8))
                &&& final(self).game.current_player_index == next
                &&& final(self).game.current_player == (Player {
                    number_of_throws: 0,
                    ..final(self).game.all_players@[next]
                })
            },
            final(self).screen == old(self).screen,
            final(self).multiplayer == old(self).multiplayer,
            final(self).room_key == old(self).room_key,
    {
        let current = player_index == self.game.current_player_index;
        let mine = match self.multiplayer {
            Some(seat) => seat == player_index && current,
            None => current,
        };
        let filled = self.player_buttons[player_index][category].is_some();
        if !(mine && !filled && self.game.current_player.number_of_throws > 0) {
            return None;
        }
        let ghost s = *self;
        let points = calculate_points(category, self.game.current_player.dice_throw);
        add_dice_point_table(&mut self.game, category);
        let ghost g1 = self.game;
        self.set_button(player_index, category, Some(points as u32));
        let idx = self.game.current_player_index;
        self.store_entry(idx, category, points);
        proof {
            if s.game.current_player.point_table.points_thrown[category as int] is None {
                let stored = stored_entry(g1.all_players@[idx as int], category, points);
                assert(g1.all_players@[idx as int] == g1.current_player);
                assert(g1.current_player.point_table.points_thrown[category as int] == Some(points));
                assert(stored.point_table.points_thrown =~= g1.current_player.point_table.points_thrown);
                assert(stored == g1.current_player);
                assert(self.game.all_players@ =~= g1.all_players@);
            }
        }
        next_player(&mut self.game);
        proof {
            if s.game.current_player.point_table.points_thrown[category as int] is None {
                assert(entry_effect(s.game, g1, category));
                assert(self.game.all_players@ == g1.all_players@);
            }
        }
        Some(points)
    }

    /// The current player is the computer and its turn can be played out: the dice show
    /// at most six eyes and any open category can take its highest points.
    pub fn bot_turn_possible(&self) -> (r: bool)
        ensures
            r == (self.game.current_player.kind == PlayerKind::Bot && dice_in_range(self.game.current_player.dice_throw)
                && turn_safe(self.game.current_player)),
    {
        self.game.current_player.kind == PlayerKind::Bot && dice_ok(&self.game.current_player.dice_throw)
            && sheet_safe(&self.game.current_player)
    }

    /// The computer plays the current player's turn; its entry shows on its buttons, and
    /// the turn passes on.
    pub fn bot_turn(&mut self)
        requires
            old(self).wf(),
            dice_in_range(old(self).game.current_player.dice_throw),
            turn_safe(old(self).game.current_player),
        ensures
            final(self).wf(),
            ({
                let s = *old(self);
                let bi = s.game.current_player_index;
                let next = (bi + 1) % (s.game.number_of_players as int);
                let pts0 = s.game.current_player.point_table.points_thrown@;
                let pts1 = final(self).game.all_players@[bi as int].point_table.points_thrown@;
                let n0 = s.game.current_player.number_of_throws;
                &&& open_categories(pts0, 13).len() > 0 ==> exists|c: usize, t: DiceThrow|
                    c < 13 && pts0[c as int] is None && throw_after(s.game.current_player.dice_throw, t)
                    && #[trigger] entered(pts0, c, points_of(c, t)) == pts1
                &&& open_categories(pts0, 13).len() > 0 && n0 <= 2
                    ==> n0 < final(self).game.all_players@[bi as int].number_of_throws <= 3
                &&& final(self).game.all_players@.len() == s.game.all_players@.len()
                &&& forall|j: int| 0 <= j < s.game.all_players@.len() && j != bi
                    ==> #[trigger] final(self).game.all_players@[j] == s.game.all_players@[j]
                &&& final(self).player_buttons@.len() == s.player_buttons@.len()
                &&& forall|i: int| 0 <= i < s.player_buttons@.len() && i != bi
                    ==> #[trigger] final(self).player_buttons@[i] == s.player_buttons@[i]
                &&& forall|c: int| 0 <= c < 13 ==> #[trigger] final(self).player_buttons@[bi as int]@[c] == if s.player_buttons@[bi as int]@[c] is None {
                    match pts1[c] {
                        Some(v) => Some(v as u32),
                        None => None,
                    }
                } else {
                    s.player_buttons@[bi as int]@[c]
                }
                &&& final(self).game.current_player_index == next
                &&& final(self).game.current_player == (Player {
                    number_of_throws: 0,
                    ..final(self).game.all_players@[next]
                })
            }),
            final(self).screen == old(self).screen,
            final(self).multiplayer == old(self).multiplayer,
            final(self).room_key == old(self).room_key,
    {
        let ghost s = *self;
        let bot_index = self.game.current_player_index;
        bot_game_turn(&mut self.game);
        let ghost g1 = self.game;
        let mut cat: usize = 0;
        while cat < 13
            invariant
                self.wf(),
                bot_index == s.game.current_player_index,
                self.screen == s.screen,
                self.multiplayer == s.multiplayer,
                self.room_key == s.room_key,
                self.game == g1,
                g1.current_player_index == bot_index,
                self.player_buttons@.len() == s.player_buttons@.len(),
                0 <= cat <= 13,
                forall|i: int| 0 <= i < s.player_buttons@.len() && i != bot_index
                    ==> #[trigger] self.player_buttons@[i] == s.player_buttons@[i],
                forall|c: int| 0 <= c < 13 ==> #[trigger] self.player_buttons@[bot_index as int]@[c] == if c < cat
                    && s.player_buttons@[bot_index as int]@[c] is None {
                    match g1.all_players@[bot_index as int].point_table.points_thrown[c] {
                        Some(v) => Some(v as u32),
                        None => None,
                    }
                } else {
                    s.player_buttons@[bot_index as int]@[c]
                },
            decreases 13 - cat,
        {
            if self.player_buttons[bot_index][cat].is_none() {
                if let Some(points) = self.game.all_players[bot_index].point_table.points_thrown[cat] {
                    self.set_button(bot_index, cat, Some(points as u32));
                }
            }
            cat = cat + 1;
        }
        next_player(&mut self.game);
    }

    /// The opponent threw: its dice and its count of throws, as far as they came along
    /// (eyes and counts are cut to a byte).
    pub fn remote_dice_throw(&mut self, dice: &Vec<Option<u64>>, throws: Option<u64>)
        ensures
            remote_thrown(*old(self), *final(self), dice@, throws),
    {
        let mut i: usize = 0;
        while i < dice.len() && i < 5
            invariant
                0 <= i <= 5,
                i <= dice@.len(),
                self.game.current_player.point_table == old(self).game.current_player.point_table,
                self.game.current_player.kind == old(self).game.current_player.kind,
                self.game.current_player.number_of_throws == old(self).game.current_player.number_of_throws,
                self.game.all_players == old(self).game.all_players,
                self.game.current_player_index == old(self).game.current_player_index,
                self.game.number_of_players == old(self).game.number_of_players,
                self.player_buttons == old(self).player_buttons,
                self.screen == old(self).screen,
                self.multiplayer == old(self).multiplayer,
                self.room_key == old(self).room_key,
                forall|j: int| 0 <= j < 5 ==> #[trigger] self.game.current_player.dice_throw[j] == if j < i
                    && dice@[j] is Some {
                    Dice { eyes: dice@[j]->Some_0 as u8, ..old(self).game.current_player.dice_throw[j] }
                } else {
                    old(self).game.current_player.dice_throw[j]
                },
            decreases 5 - i,
        {
            if let Some(eyes) = dice[i] {
                self.game.current_player.dice_throw[i].eyes = eyes as u8;
            }
            i = i + 1;
        }
        if let Some(t) = throws {
            self.game.current_player.number_of_throws = t as u8;
        }
    }

    /// The opponent put a die aside or took it back (an index past the dice is ignored).
    pub fn remote_dice_lock(&mut self, dice_index: Option<u64>)
        ensures
            remote_locked(*old(self), *final(self), dice_index),
    {
        if let Some(d) = dice_index {
            let idx = d as usize;
            if idx < 5 {
                change_blocked_status_dice(&mut self.game, idx);
            }
        }
    }

    /// The opponent entered `points` in `category`: the entry goes into its sheet and onto
    /// its buttons, and the turn passes on. Nothing happens unless both came along.
    pub fn remote_category(&mut self, category: Option<u64>, points: Option<u64>)
        requires
            category_acceptable(*old(self), category, points),
        ensures
            remote_entered(*old(self), *final(self), category, points),
    {
        if let (Some(c), Some(v)) = (category, points) {
            let cat = c as usize;
            let pts = v as u8;
            let ghost s = *self;
            add_dice_point_table(&mut self.game, cat);
            let ghost g1 = self.game;
            let idx = self.game.current_player_index;
            self.set_button(idx, cat, Some(pts as u32));
            self.store_entry(idx, cat, pts);
            next_player(&mut self.game);
            proof {
                assert(self.game.all_players@ == g1.all_players@.update(idx as int, stored_entry(
                    g1.all_players@[idx as int], cat, pts)));
                if s.game.current_player.point_table.points_thrown[cat as int] is None {
                    assert(entry_effect(s.game, g1, cat));
                    assert(exists|g: Game| #[trigger] entry_effect(s.game, g, cat) && self.game.all_players@
                        == g.all_players@.update(idx as int, stored_entry(g.all_players@[idx as int], cat, pts)));
                } else {
                    assert(g1 == s.game);
                }
            }
        }
    }

    /// A message of the opponent over the network: a throw, a die put aside or taken
    /// back, and an entry are taken over as `remote_dice_throw`, `remote_dice_lock` and
    /// `remote_category` say; the opponent's arrival starts the game while this side
    /// waits in its room (as `start_multiplayer_game` says) and changes nothing
    /// otherwise; any other message changes nothing.
    pub fn on_remote(&mut self, m: RemoteMessage)
        requires
            old(self).wf(),
            m matches RemoteMessage::Category { category, points } ==> category_acceptable(*old(self), category, points),
        ensures
            final(self).wf(),
            match m {
                RemoteMessage::DiceThrow { dice, throws } => remote_thrown(*old(self), *final(self), dice@, throws),
                RemoteMessage::DiceLock { index } => remote_locked(*old(self), *final(self), index),
                RemoteMessage::Category { category, points } => remote_entered(*old(self), *final(self), category, points),
                RemoteMessage::OpponentJoined => if old(self).screen == Screen::WaitingForOpponent {
                    multiplayer_started(*old(self), *final(self))
                } else {
                    *final(self) == *old(self)
                },
                RemoteMessage::Other => *final(self) == *old(self),
            },
    {
        match m {
            RemoteMessage::DiceThrow { dice, throws } => self.remote_dice_throw(&dice, throws),
            RemoteMessage::DiceLock { index } => self.remote_dice_lock(index),
            RemoteMessage::Category { category, points } => self.remote_category(category, points),
            RemoteMessage::OpponentJoined => {
                if self.screen == Screen::WaitingForOpponent {
                    self.start_multiplayer_game();
                }
            },
            RemoteMessage::Other => {},
        }
    }

    /// The line shown when every sheet is full: the winner and its points, or the players
    /// who share the highest points.
    pub fn winner_text(&self) -> (r: String)
        requires
            self.wf(),
            all_tables_full(self.game),
        ensures
            r@ == winner_line(winner_list(self.game), lead_max(self.game, self.game.number_of_players as int)),
    {
        let (list, points) = self.game.winner().unwrap();
        proof {
            crate::kniffel::lemma_ties(self.game, 0, self.game.number_of_players as int,
                lead_max(self.game, self.game.number_of_players as int));
        }
        let mut line;
        if list.len() == 1 {
            line = "Der Gewinner mit ".to_owned();
            line.append(decimal_text(points as u128).as_str());
            line.append(" Punkten ist Spieler ");
            line.append(decimal_text(list[0] as u128 + 1).as_str());
        } else {
            line = "Gleichstand zwischen Spielern ".to_owned();
            line.append(list_text(&list).as_str());
            line.append(", mit ");
            line.append(decimal_text(points as u128).as_str());
            line.append(" Punkten");
        }
        line
    }
}

/// The numbers of `s` separated by ", ".
pub open spec fn items_text(s: Seq<usize>) -> Seq<char>
    decreases s.len(),
{
    if s.len() == 0 {
        Seq::empty()
    } else if s.len() == 1 {
        decimal(s[0] as nat)
    } else {
        items_text(s.drop_last()) + ", "@ + decimal(s.last() as nat)
    }
}

/// The numbers of `s` as `{:?}` writes a list of them.
pub open spec fn list_debug(s: Seq<usize>) -> Seq<char> {
    "["@ + items_text(s) + "]"@
}

fn list_text(list: &Vec<usize>) -> (r: String)
    ensures
        r@ == list_debug(list@),
{
    let mut line = "[".to_owned();
    let mut i: usize = 0;
    while i < list.len()
        invariant
            0 <= i <= list@.len(),
            line@ == "["@ + items_text(list@.take(i as int)),
        decreases list@.len() - i,
    {
        proof {
            assert(list@.take(i + 1).drop_last() =~= list@.take(i as int));
        }
        if i > 0 {
            line.append(", ");
        }
        line.append(decimal_text(list[i] as u128).as_str());
        proof {
            if i == 0 {
                assert(items_text(list@.take(i as int)) =~= Seq::<char>::empty());
            }
            assert(line@ =~= "["@ + items_text(list@.take(i + 1)));
        }
        i = i + 1;
    }
    line.append("]");
    assert(list@.take(list@.len() as int) =~= list@);
    line
}

/// The winner line for the winners `list` (seats counted from 0) with `points`.
pub open spec fn winner_line(list: Seq<usize>, points: int) -> Seq<char> {
    if list.len() == 1 {
        "Der Gewinner mit "@ + decimal(points as nat) + " Punkten ist Spieler "@ + decimal((list[0] + 1) as nat)
    } else {
        "Gleichstand zwischen Spielern "@ + list_debug(list) + ", mit "@ + decimal(points as nat) + " Punkten"@
    }
}



/// The stored sheet of `p` with `points` written into `category`.
pub open spec fn stored_entry(p: Player, category: usize, points: u8) -> Player {
    Player {
        point_table: PointTable {
            points_thrown: vstd::array::spec_array_update(p.point_table.points_thrown, category as int, Some(points)),
            ..p.point_table
        },
        ..p
    }
}


/// `s1` is `s0` after the opponent's throw arrived: each die that came along shows its
/// eyes (cut to a byte), the count of throws is taken over if it came along; nothing else
/// changes.
pub open spec fn remote_thrown(s0: KniffelGame, s1: KniffelGame, dice: Seq<Option<u64>>, throws: Option<u64>) -> bool {
    &&& forall|i: int| 0 <= i < 5 ==> #[trigger] s1.game.current_player.dice_throw[i] == if i < dice.len()
        && dice[i] is Some {
        Dice { eyes: dice[i]->Some_0 as u8, ..s0.game.current_player.dice_throw[i] }
    } else {
        s0.game.current_player.dice_throw[i]
    }
    &&& s1.game.current_player.number_of_throws == match throws {
        Some(t) => t as u8,
        None => s0.game.current_player.number_of_throws,
    }
    &&& s1.game.current_player.point_table == s0.game.current_player.point_table
    &&& s1.game.current_player.kind == s0.game.current_player.kind
    &&& s1.game.all_players == s0.game.all_players
    &&& s1.game.current_player_index == s0.game.current_player_index
    &&& s1.game.number_of_players == s0.game.number_of_players
    &&& s1.player_buttons == s0.player_buttons
    &&& s1.screen == s0.screen
    &&& s1.multiplayer == s0.multiplayer
    &&& s1.room_key == s0.room_key
}

/// `s1` is `s0` after the opponent put die `dice_index` aside or took it back; an index
/// that is missing or past the dice changes nothing.
pub open spec fn remote_locked(s0: KniffelGame, s1: KniffelGame, dice_index: Option<u64>) -> bool {
    match dice_index {
        Some(d) if (d as usize) < 5 => {
            &&& s1.game.current_player.dice_throw@ == s0.game.current_player.dice_throw@.update(
                d as usize as int,
                Dice {
                    is_locked: !s0.game.current_player.dice_throw[d as usize as int].is_locked,
                    ..s0.game.current_player.dice_throw[d as usize as int]
                },
            )
            &&& s1.game.current_player.number_of_throws == s0.game.current_player.number_of_throws
            &&& s1.game.current_player.point_table == s0.game.current_player.point_table
            &&& s1.game.all_players == s0.game.all_players
            &&& s1.game.current_player_index == s0.game.current_player_index
            &&& s1.game.number_of_players == s0.game.number_of_players
            &&& s1.player_buttons == s0.player_buttons
            &&& s1.screen == s0.screen
            &&& s1.multiplayer == s0.multiplayer
        },
        _ => s1 == s0,
    }
}

/// The opponent's entry can be taken: a category that came along with its points lies
/// among the thirteen, and an open one can take the current throw.
pub open spec fn category_acceptable(s0: KniffelGame, category: Option<u64>, points: Option<u64>) -> bool {
    &&& s0.wf()
    &&& category is Some && points is Some ==> {
        let c = category->Some_0 as usize;
        &&& c < 13
        &&& s0.game.current_player.point_table.points_thrown[c as int] is None
            ==> entry_defined(s0.game.current_player, c)
    }
}

/// `s1` is `s0` after the opponent entered `points` in `category`: the entry goes into
/// its sheet and onto its buttons, and the turn passes on; nothing happens unless both
/// came along.
pub open spec fn remote_entered(s0: KniffelGame, s1: KniffelGame, category: Option<u64>, points: Option<u64>) -> bool {
    &&& s1.wf()
    &&& !(category is Some && points is Some) ==> s1 == s0
    &&& category is Some && points is Some ==> {
        let s = s0;
        let c = category->Some_0 as usize;
        let v = points->Some_0 as u8;
        let idx = s.game.current_player_index;
        let next = (idx + 1) % (s.game.number_of_players as int);
        &&& s.game.current_player.point_table.points_thrown[c as int] is None ==> exists|g1: Game|
            #[trigger] entry_effect(s.game, g1, c) && s1.game.all_players@ == g1.all_players@.update(
                idx as int, stored_entry(g1.all_players@[idx as int], c, v))
        &&& s.game.current_player.point_table.points_thrown[c as int] is Some ==> s1.game.all_players@
            == s.game.all_players@.update(idx as int, stored_entry(s.game.all_players@[idx as int], c, v))
        &&& s1.player_buttons@.len() == s.player_buttons@.len()
        &&& forall|i: int| 0 <= i < s.player_buttons@.len() && i != idx
            ==> #[trigger] s1.player_buttons@[i] == s.player_buttons@[i]
        &&& s1.player_buttons@[idx as int]@ == s.player_buttons@[idx as int]@.update(c as int, Some(v as u32))
        &&& s1.game.current_player_index == next
        &&& s1.game.current_player == (Player {
            number_of_throws: 0,
            ..s1.game.all_players@[next]
        })
    }
    &&& s1.screen == s0.screen
    &&& s1.multiplayer == s0.multiplayer
    &&& s1.room_key == s0.room_key
}

/// `s1` is `s0` once a game over the network started: two people, fresh sheets, the side
/// that waited in its room on the first seat, the side that joined on the second.
pub open spec fn multiplayer_started(s0: KniffelGame, s1: KniffelGame) -> bool {
    &&& s1.wf()
    &&& s1.screen == Screen::InGame
    &&& fresh_game(s1.game, 2, 0)
    &&& forall|i: int, c: int| 0 <= i < 2 && 0 <= c < 13 ==> (#[trigger] s1.player_buttons@[i]@[c]) is None
    &&& s1.players == 2
    &&& s1.bots == 0
    &&& s1.multiplayer == if s0.screen == Screen::WaitingForOpponent { Some(0usize) } else { Some(1usize) }
    &&& s1.room_key == s0.room_key
}

} // verus!
