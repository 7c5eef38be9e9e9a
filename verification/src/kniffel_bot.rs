use vstd::prelude::*;
use crate::kniffel::{
    add_dice_point_table, calculate_points, change_blocked_status_dice, entry_defined, entry_effect,
    entered, eyes_of, lemma_count_five, lemma_open_categories, open_categories, points_defined,
    points_of, slot_points, slot_sum, throw_dice, totals_fit, totals_of, Dice, DiceThrow, Game, Player,
};
use crate::sorting::{ascending, byte_leq, lemma_byte_leq_total, sort_bytes};

verus! {

/// How the bot rates a throw: what it plays for next.
#[derive(Clone, Copy, Debug, PartialEq, Eq, Structural)]
pub enum Rating {
    Straight,
    Double,
    FullHouse,
    Sacrifice,
}

/// Whether two dice of the throw show the same eyes. The scan compares each of the
/// first four dice with all five, itself included, so the answer is always yes.
pub fn two_same(dice_throw: DiceThrow) -> (r: bool)
    ensures
        r == true,
{
    let mut index: usize = 0;
    while index < 4
        invariant
            index == 0,
        decreases 4 - index,
    {
        let mut index2: usize = 0;
        while index2 < 5
            invariant
                index == 0,
                index2 == 0,
            decreases 5 - index2,
        {
            if dice_throw[index].eyes == dice_throw[index2].eyes {
                return true;
            }
            index2 = index2 + 1;
        }
        index = index + 1;
    }
    false
}

/// The distinct values of `e[0..k]`, in the order of their first occurrence.
pub open spec fn distinct_prefix(e: Seq<u8>, k: int) -> Seq<u8>
    decreases k,
{
    if k <= 0 {
        Seq::empty()
    } else if distinct_prefix(e, k - 1).contains(e[k - 1]) {
        distinct_prefix(e, k - 1)
    } else {
        distinct_prefix(e, k - 1).push(e[k - 1])
    }
}

pub proof fn lemma_distinct_prefix(e: Seq<u8>, k: int)
    requires
        0 <= k <= e.len(),
    ensures
        distinct_prefix(e, k).no_duplicates(),
        distinct_prefix(e, k).len() <= k,
    decreases k,
{
    if k > 0 {
        lemma_distinct_prefix(e, k - 1);
    }
}

/// The distinct eyes of the throw, in the order in which they first appear.
pub fn remove_duplicates(dice_throw: DiceThrow) -> (r: Vec<u8>)
    ensures
        r@ == distinct_prefix(eyes_of(dice_throw), 5),
{
    let ghost e = eyes_of(dice_throw);
    let mut unique_eyes: Vec<u8> = Vec::new();
    let mut i: usize = 0;
    while i < 5
        invariant
            0 <= i <= 5,
            e == eyes_of(dice_throw),
            unique_eyes@ == distinct_prefix(e, i as int),
        decreases 5 - i,
    {
        let eyes = dice_throw[i].eyes;
        let mut found = false;
        let mut j: usize = 0;
        while j < unique_eyes.len()
            invariant
                0 <= j <= unique_eyes@.len(),
                found == (exists|k: int| 0 <= k < j && unique_eyes@[k] == eyes),
            decreases unique_eyes@.len() - j,
        {
            if unique_eyes[j] == eyes {
                found = true;
            }
            j = j + 1;
        }
        proof {
            if found {
                let k = choose|k: int| 0 <= k < j && unique_eyes@[k] == eyes;
                assert(unique_eyes@.contains(eyes));
            } else {
                assert(!unique_eyes@.contains(eyes));
            }
        }
        if !found {
            unique_eyes.push(eyes);
        }
        i = i + 1;
    }
    unique_eyes
}

/// The scan for runs of consecutive values over the sorted distinct eyes `u`: after
/// `k` steps, the longest finished run so far and the run in progress, both as
/// positions in `u`. A run that is still in progress at the end is not compared.
pub open spec fn run_scan(u: Seq<u8>, k: int) -> (Seq<usize>, Seq<usize>)
    decreases k,
{
    if k <= 0 {
        (Seq::empty(), Seq::empty())
    } else {
        let (longest, current) = run_scan(u, k - 1);
        let index = (k - 1) as usize;
        if current.len() == 0 {
            (longest, current.push(index))
        } else if u[k - 1] == u[current.last() as int] + 1 {
            (longest, current.push(index))
        } else if u[k - 1] != u[current.last() as int] {
            (if current.len() > longest.len() { current } else { longest }, seq![index])
        } else {
            (longest, current)
        }
    }
}

pub proof fn lemma_run_scan(u: Seq<u8>, k: int)
    requires
        0 <= k <= u.len() <= usize::MAX,
        forall|a: int, b: int| 0 <= a < b < u.len() ==> u[a] < u[b],
    ensures
        k > 0 ==> run_scan(u, k).1.len() > 0 && run_scan(u, k).1.last() == k - 1,
        forall|i: int| 0 <= i < run_scan(u, k).0.len() ==> #[trigger] run_scan(u, k).0[i] < k,
        forall|i: int| 0 <= i < run_scan(u, k).1.len() ==> #[trigger] run_scan(u, k).1[i] < k,
    decreases k,
{
    if k > 0 {
        lemma_run_scan(u, k - 1);
        let (l, c) = run_scan(u, k - 1);
        if c.len() > 0 {
            assert(c.last() == k - 2);
            assert(u[k - 2] < u[k - 1]);
        }
        assert forall|i: int| 0 <= i < run_scan(u, k).0.len() implies #[trigger] run_scan(u, k).0[i] < k by {
            if i < l.len() && run_scan(u, k).0 == l {
                assert(l[i] < k - 1);
            }
        }
        assert forall|i: int| 0 <= i < run_scan(u, k).1.len() implies #[trigger] run_scan(u, k).1[i] < k by {
            if i < c.len() && c.len() > 0 {
                assert(c[i] < k - 1);
            }
        }
    }
}

/// The positions (in the sorted distinct eyes) of the longest run of consecutive
/// values that the scan finished.
pub fn find_longest_sequence(dice_throw: DiceThrow) -> (r: Vec<usize>)
    ensures
        r@ == run_scan(ascending(distinct_prefix(eyes_of(dice_throw), 5)), ascending(distinct_prefix(eyes_of(dice_throw), 5)).len() as int).0,
        forall|i: int| 0 <= i < r@.len() ==> #[trigger] r@[i] < 5,
{
    let mut longest_seq: Vec<usize> = Vec::new();
    let mut current_seq: Vec<usize> = Vec::new();
    let mut dice_roll = remove_duplicates(dice_throw);
    let ghost d = dice_roll@;
    proof {
        lemma_distinct_prefix(eyes_of(dice_throw), 5);
        lemma_byte_leq_total();
        d.lemma_sort_by_ensures(byte_leq());
        d.lemma_multiset_has_no_duplicates();
    }
    sort_bytes(&mut dice_roll);
    let ghost u = dice_roll@;
    proof {
        broadcast use vstd::seq_lib::group_to_multiset_ensures;
        vstd::seq_lib::to_multiset_len(u);
        vstd::seq_lib::to_multiset_len(d);
        assert(u.len() == d.len());
        assert forall|x: u8| u.to_multiset().contains(x) implies u.to_multiset().count(x) == 1 by {
            assert(d.to_multiset().contains(x));
        }
        u.lemma_multiset_has_no_duplicates_conv();
        assert forall|a: int, b: int| 0 <= a < b < u.len() implies u[a] < u[b] by {
            assert(byte_leq()(u[a], u[b]));
        }
    }
    let n = dice_roll.len();
    let mut index: usize = 0;
    while index < n
        invariant
            0 <= index <= n,
            n == u.len() <= 5,
            dice_roll@ == u,
            forall|a: int, b: int| 0 <= a < b < u.len() ==> u[a] < u[b],
            (longest_seq@, current_seq@) == run_scan(u, index as int),
            forall|i: int| 0 <= i < longest_seq@.len() ==> #[trigger] longest_seq@[i] < 5,
        decreases n - index,
    {
        proof {
            lemma_run_scan(u, index as int);
        }
        if current_seq.len() == 0 {
            current_seq.push(index);
        } else {
            let last_index = current_seq[current_seq.len() - 1];
            let last_eyes = dice_roll[last_index];
            if dice_roll[index] == last_eyes + 1 {
                current_seq.push(index);
            } else if dice_roll[index] != last_eyes {
                if current_seq.len() > longest_seq.len() {
                    longest_seq = current_seq.clone();
                    assert(longest_seq@ =~= current_seq@);
                }
                current_seq.clear();
                current_seq.push(index);
                assert(current_seq@ =~= seq![index]);
            }
        }
        index = index + 1;
    }
    longest_seq
}

/// The ten pairs of dice `(d, d2)` with `d < d2`, in the order of the scan.
pub open spec fn dice_pairs() -> Seq<(int, int)> {
    seq![(0, 1), (0, 2), (0, 3), (0, 4), (1, 2), (1, 3), (1, 4), (2, 3), (2, 4), (3, 4)]
}

/// Where the pairs that start with die `d` begin in `dice_pairs()`.
pub open spec fn pair_offset(d: int) -> int {
    if d == 0 { 0 } else if d == 1 { 4 } else if d == 2 { 7 } else if d == 3 { 9 } else { 10 }
}

/// The scan for equal dice (equal eyes and equal lock state) over the first `k` pairs:
/// the dice of the first group, the dice of the second group, and the eyes that the
/// two groups stand for (0 while a group is still unused). Each matching pair adds
/// both of its dice to the group it belongs to.
pub open spec fn pair_scan(t: DiceThrow, k: int) -> (Seq<usize>, Seq<usize>, u8, u8)
    decreases k,
{
    if k <= 0 {
        (Seq::empty(), Seq::empty(), 0u8, 0u8)
    } else {
        let (a, b, e1, e2) = pair_scan(t, k - 1);
        let (d, d2) = dice_pairs()[k - 1];
        let same = t[d] == t[d2];
        let pair = seq![d as usize, d2 as usize];
        if t[d].eyes == e1 && same {
            (a + pair, b, e1, e2)
        } else if e1 == 0 && same {
            (a + pair, b, t[d].eyes, e2)
        } else if t[d].eyes == e2 && same {
            (a, b + pair, e1, e2)
        } else if e2 == 0 && same {
            (a, b + pair, e1, t[d].eyes)
        } else {
            (a, b, e1, e2)
        }
    }
}

pub proof fn lemma_pair_scan(t: DiceThrow, k: int)
    requires
        0 <= k <= 10,
    ensures
        forall|i: int| 0 <= i < pair_scan(t, k).0.len() ==> #[trigger] pair_scan(t, k).0[i] < 5,
        forall|i: int| 0 <= i < pair_scan(t, k).1.len() ==> #[trigger] pair_scan(t, k).1[i] < 5,
    decreases k,
{
    if k > 0 {
        lemma_pair_scan(t, k - 1);
        let (a, b, e1, e2) = pair_scan(t, k - 1);
        let (d, d2) = dice_pairs()[k - 1];
        assert(0 <= d < 5 && 0 <= d2 < 5);
        let pair = seq![d as usize, d2 as usize];
        assert forall|i: int| 0 <= i < (a + pair).len() implies #[trigger] (a + pair)[i] < 5 by {
            if i >= a.len() {
                assert((a + pair)[i] == pair[i - a.len()]);
            }
        }
        assert forall|i: int| 0 <= i < (b + pair).len() implies #[trigger] (b + pair)[i] < 5 by {
            if i >= b.len() {
                assert((b + pair)[i] == pair[i - b.len()]);
            }
        }
    }
}

/// The two groups of equal dice that the pair scan finds.
pub fn two_or_more_equal_at(dice_throw: DiceThrow) -> (r: Vec<Vec<usize>>)
    ensures
        r@.len() == 2,
        r@[0]@ == pair_scan(dice_throw, 10).0,
        r@[1]@ == pair_scan(dice_throw, 10).1,
        forall|i: int| 0 <= i < r@[0]@.len() ==> #[trigger] r@[0]@[i] < 5,
        forall|i: int| 0 <= i < r@[1]@.len() ==> #[trigger] r@[1]@[i] < 5,
{
    let mut equal_dice: Vec<usize> = Vec::new();
    let mut equal_dice_2: Vec<usize> = Vec::new();
    let mut equal_dice_eyes: u8 = 0;
    let mut equal_dice_eyes2: u8 = 0;
    let mut dice: usize = 0;
    while dice < 4
        invariant
            0 <= dice <= 4,
            (equal_dice@, equal_dice_2@, equal_dice_eyes, equal_dice_eyes2) == pair_scan(dice_throw, pair_offset(dice as int)),
        decreases 4 - dice,
    {
        let mut dice_2: usize = dice + 1;
        while dice_2 < 5
            invariant
                0 <= dice < dice_2 <= 5,
                dice < 4,
                (equal_dice@, equal_dice_2@, equal_dice_eyes, equal_dice_eyes2)
                    == pair_scan(dice_throw, pair_offset(dice as int) + dice_2 - dice - 1),
            decreases 5 - dice_2,
        {
            let ghost k = pair_offset(dice as int) + dice_2 - dice - 1;
            assert(dice_pairs()[k] == (dice as int, dice_2 as int));
            let ghost before = (equal_dice@, equal_dice_2@);
            if dice_throw[dice].eyes == equal_dice_eyes && dice_throw[dice] == dice_throw[dice_2] {
                equal_dice.push(dice);
                equal_dice.push(dice_2);
            } else if equal_dice_eyes == 0 && dice_throw[dice] == dice_throw[dice_2] {
                equal_dice_eyes = dice_throw[dice].eyes;
                equal_dice.push(dice);
                equal_dice.push(dice_2);
            } else if dice_throw[dice].eyes == equal_dice_eyes2 && dice_throw[dice] == dice_throw[dice_2] {
                equal_dice_2.push(dice);
                equal_dice_2.push(dice_2);
            } else if equal_dice_eyes2 == 0 && dice_throw[dice] == dice_throw[dice_2] {
                equal_dice_eyes2 = dice_throw[dice].eyes;
                equal_dice_2.push(dice);
                equal_dice_2.push(dice_2);
            }
            proof {
                let pair = seq![dice, dice_2];
                assert(before.0.push(dice).push(dice_2) =~= before.0 + pair);
                assert(before.1.push(dice).push(dice_2) =~= before.1 + pair);
            }
            dice_2 = dice_2 + 1;
        }
        dice = dice + 1;
    }
    proof {
        lemma_pair_scan(dice_throw, 10);
    }
    let mut groups: Vec<Vec<usize>> = Vec::new();
    groups.push(equal_dice);
    groups.push(equal_dice_2);
    groups
}

/// Scanning `cats[0..k]` in order: the most points reached and the last category that
/// reached them (99 before any category is seen).
pub open spec fn max_scan(t: DiceThrow, cats: Seq<usize>, k: int) -> (int, usize)
    decreases k,
{
    if k <= 0 {
        (0, 99usize)
    } else {
        let (m, c) = max_scan(t, cats, k - 1);
        let p = points_of(cats[k - 1], t);
        if p >= m { (p, cats[k - 1]) } else { (m, c) }
    }
}

pub proof fn lemma_max_scan(t: DiceThrow, cats: Seq<usize>, k: int)
    requires
        0 < k <= cats.len(),
    ensures
        cats.contains(max_scan(t, cats, k).1),
    decreases k,
{
    if k > 1 {
        lemma_max_scan(t, cats, k - 1);
    }
    let (m, c) = max_scan(t, cats, k - 1);
    if points_of(cats[k - 1], t) >= m {
        assert(cats[k - 1] == max_scan(t, cats, k).1);
    }
}

/// The category with the most points for the throw among `empty_categories`; on a tie
/// the later one. `None` when the list is empty.
pub fn find_max_points(dice_throw: DiceThrow, empty_categories: Vec<usize>) -> (r: Option<usize>)
    requires
        forall|i: int| 0 <= i < empty_categories@.len() ==> points_defined(#[trigger] empty_categories@[i], dice_throw),
    ensures
        empty_categories@.len() == 0 ==> r is None,
        empty_categories@.len() > 0 ==> r == Some(max_scan(dice_throw, empty_categories@, empty_categories@.len() as int).1),
{
    if empty_categories.len() == 0 {
        return None;
    }
    let mut max_points: u8 = 0;
    let mut max_category: usize = 99;
    let mut i: usize = 0;
    while i < empty_categories.len()
        invariant
            0 <= i <= empty_categories@.len(),
            forall|j: int| 0 <= j < empty_categories@.len() ==> points_defined(#[trigger] empty_categories@[j], dice_throw),
            (max_points as int, max_category) == max_scan(dice_throw, empty_categories@, i as int),
        decreases empty_categories@.len() - i,
    {
        let category = empty_categories[i];
        if calculate_points(category, dice_throw) >= max_points {
            max_points = calculate_points(category, dice_throw);
            max_category = category;
        }
        i = i + 1;
    }
    Some(max_category)
}

fn holds_category(cats: &Vec<usize>, c: usize) -> (r: bool)
    ensures
        r == cats@.contains(c),
{
    let mut i: usize = 0;
    while i < cats.len()
        invariant
            0 <= i <= cats@.len(),
            forall|j: int| 0 <= j < i ==> cats@[j] != c,
        decreases cats@.len() - i,
    {
        if cats[i] == c {
            return true;
        }
        i = i + 1;
    }
    false
}

/// The rating of a throw given the open categories: a double while three or four of a
/// kind or Kniffel is open, else full house while it is open, else a straight while
/// one is open, else a sacrifice.
pub open spec fn rating_of(empty: Seq<usize>) -> Rating {
    if empty.contains(6) || empty.contains(7) || empty.contains(11) {
        Rating::Double
    } else if empty.contains(8) {
        Rating::FullHouse
    } else if empty.contains(9) || empty.contains(10) {
        Rating::Straight
    } else {
        Rating::Sacrifice
    }
}

/// Rates a throw for the bot.
pub fn rate_throw(empty_cat: Vec<usize>, dice_throw: DiceThrow) -> (r: Rating)
    requires
        empty_cat@.contains(6) ==> points_defined(6, dice_throw),
        !empty_cat@.contains(6) && empty_cat@.contains(7) ==> points_defined(7, dice_throw),
    ensures
        r == rating_of(empty_cat@),
{
    let doubles: [usize; 3] = [6, 7, 11];
    let mut k: usize = 0;
    while k < 3
        invariant
            0 <= k <= 3,
            doubles@ == seq![6usize, 7usize, 11usize],
            forall|j: int| 0 <= j < k ==> !empty_cat@.contains(#[trigger] doubles@[j]),
            empty_cat@.contains(6) ==> points_defined(6, dice_throw),
            !empty_cat@.contains(6) && empty_cat@.contains(7) ==> points_defined(7, dice_throw),
        decreases 3 - k,
    {
        let double = doubles[k];
        if holds_category(&empty_cat, double) {
            if calculate_points(double, dice_throw) != 0 || two_same(dice_throw) {
                return Rating::Double;
            }
        }
        k = k + 1;
    }
    if holds_category(&empty_cat, 8) && two_same(dice_throw) {
        return Rating::FullHouse;
    }
    if holds_category(&empty_cat, 9) || holds_category(&empty_cat, 10) {
        return Rating::Straight;
    }
    Rating::Sacrifice
}

/// `new` is `old` with the current player's dice at the positions in `list` put aside;
/// nothing else changes.
pub open spec fn locks_added(old: Game, new: Game, list: Seq<usize>) -> bool {
    &&& forall|j: int| 0 <= j < 5 ==> #[trigger] new.current_player.dice_throw[j] == (Dice {
        is_locked: old.current_player.dice_throw[j].is_locked || list.contains(j as usize),
        ..old.current_player.dice_throw[j]
    })
    &&& new.current_player.point_table == old.current_player.point_table
    &&& new.current_player.number_of_throws == old.current_player.number_of_throws
    &&& new.current_player.kind == old.current_player.kind
    &&& new.all_players == old.all_players
    &&& new.current_player_index == old.current_player_index
    &&& new.number_of_players == old.number_of_players
}

/// Puts aside every die whose position is in `dice` (dice already put aside stay so).
pub fn block_dice(game: &mut Game, dice: Vec<usize>)
    requires
        forall|i: int| 0 <= i < dice@.len() ==> #[trigger] dice@[i] < 5,
    ensures
        locks_added(*old(game), *final(game), dice@),
{
    let ghost g0 = *game;
    let mut i: usize = 0;
    while i < dice.len()
        invariant
            0 <= i <= dice@.len(),
            forall|k: int| 0 <= k < dice@.len() ==> #[trigger] dice@[k] < 5,
            locks_added(g0, *game, dice@.take(i as int)),
        decreases dice@.len() - i,
    {
        let dice_index = dice[i];
        let ghost before = *game;
        if !game.current_player.dice_throw[dice_index].is_locked {
            change_blocked_status_dice(game, dice_index);
        }
        proof {
            assert forall|j: int| 0 <= j < 5 implies #[trigger] game.current_player.dice_throw[j] == (Dice {
                is_locked: g0.current_player.dice_throw[j].is_locked || dice@.take(i + 1).contains(j as usize),
                ..g0.current_player.dice_throw[j]
            }) by {
                assert(dice@.take(i + 1)[i as int] == dice_index);
                if dice@.take(i as int).contains(j as usize) {
                    let k = choose|k: int| 0 <= k < i && #[trigger] dice@.take(i as int)[k] == j as usize;
                    assert(dice@.take(i + 1)[k] == j as usize);
                }
                if dice@.take(i + 1).contains(j as usize) && j != dice_index {
                    let k = choose|k: int| 0 <= k < i + 1 && #[trigger] dice@.take(i + 1)[k] == j as usize;
                    assert(dice@.take(i as int)[k] == j as usize);
                }
            }
        }
        i = i + 1;
    }
    assert(dice@.take(dice@.len() as int) =~= dice@);
}

/// The positions the bot puts aside when it plays for a straight.
pub open spec fn straight_locks(t: DiceThrow) -> Seq<usize> {
    let u = ascending(distinct_prefix(eyes_of(t), 5));
    run_scan(u, u.len() as int).0
}

/// Puts aside the dice at the positions of the longest finished run.
pub fn block_straight(game: &mut Game)
    ensures
        locks_added(*old(game), *final(game), straight_locks(old(game).current_player.dice_throw)),
{
    let longest_seq = find_longest_sequence(game.current_player.dice_throw);
    block_dice(game, longest_seq);
}

/// The positions the bot puts aside when it plays for a full house: the first group
/// of equal dice (its last position dropped when it holds more than three) and the
/// second group.
pub open spec fn full_house_locks(t: DiceThrow) -> Seq<usize> {
    let (a, b, e1, e2) = pair_scan(t, 10);
    (if a.len() > 3 { a.drop_last() } else { a }) + b
}

/// Puts aside the dice of the (at most three-die) first group and of the second group.
pub fn block_full_house(game: &mut Game)
    ensures
        locks_added(*old(game), *final(game), full_house_locks(old(game).current_player.dice_throw)),
{
    let ghost g0 = *game;
    let equal_dice = two_or_more_equal_at(game.current_player.dice_throw);
    let mut first_match = equal_dice[0].clone();
    let sec_match = equal_dice[1].clone();
    assert(first_match@ =~= equal_dice@[0]@);
    assert(sec_match@ =~= equal_dice@[1]@);
    let ghost a = first_match@;
    if first_match.len() > 3 {
        first_match.pop();
    }
    assert(forall|i: int| 0 <= i < first_match@.len() ==> first_match@[i] == a[i]);
    block_dice(game, first_match);
    let ghost g1 = *game;
    if !sec_match.is_empty() {
        block_dice(game, sec_match);
    }
    proof {
        let l1 = if a.len() > 3 { a.drop_last() } else { a };
        let l2 = sec_match@;
        assert(l1 =~= first_match@);
        assert forall|j: int| 0 <= j < 5 implies #[trigger] game.current_player.dice_throw[j] == (Dice {
            is_locked: g0.current_player.dice_throw[j].is_locked || (l1 + l2).contains(j as usize),
            ..g0.current_player.dice_throw[j]
        }) by {
            if l1.contains(j as usize) {
                let k = choose|k: int| 0 <= k < l1.len() && l1[k] == j as usize;
                assert((l1 + l2)[k] == j as usize);
            }
            if l2.contains(j as usize) {
                let k = choose|k: int| 0 <= k < l2.len() && l2[k] == j as usize;
                assert((l1 + l2)[l1.len() + k] == j as usize);
            }
            if (l1 + l2).contains(j as usize) {
                let k = choose|k: int| 0 <= k < (l1 + l2).len() && (l1 + l2)[k] == j as usize;
                if k < l1.len() {
                    assert(l1[k] == j as usize);
                } else {
                    assert(l2[k - l1.len()] == j as usize);
                }
            }
            assert(l2.len() == 0 ==> g1 == *game);
        }
    }
}

/// Categories worth 20 points or more: all but ones, twos, threes and chance.
pub open spec fn is_important(c: usize) -> bool {
    !(c < 3 || c == 12)
}

/// Some open category is important.
pub open spec fn has_important(empty: Seq<usize>) -> bool {
    exists|i: int| 0 <= i < empty.len() && is_important(#[trigger] empty[i])
}

/// The first of `cands` that is open and scores with the current throw.
pub open spec fn first_scoring(p: Player, cands: Seq<usize>) -> Option<usize>
    decreases cands.len(),
{
    if cands.len() == 0 {
        None
    } else if open_categories(p.point_table.points_thrown@, 13).contains(cands[0])
        && points_of(cands[0], p.dice_throw) != 0 {
        Some(cands[0])
    } else {
        first_scoring(p, cands.drop_first())
    }
}

/// The category the bot fills in this step, if any.
pub open spec fn bot_fill(p: Player) -> Option<usize> {
    let t = p.dice_throw;
    let empty = open_categories(p.point_table.points_thrown@, 13);
    if empty.len() == 0 {
        None
    } else if !has_important(empty) || p.number_of_throws == 3 {
        Some(max_scan(t, empty, empty.len() as int).1)
    } else {
        match rating_of(empty) {
            Rating::Double => first_scoring(p, seq![11usize, 7usize, 6usize]),
            Rating::Straight => first_scoring(p, seq![10usize, 9usize]),
            Rating::FullHouse => if points_of(8, t) != 0 { Some(8usize) } else { None },
            Rating::Sacrifice => Some(max_scan(t, empty, empty.len() as int).1),
        }
    }
}

/// The dice the bot puts aside in this step when it fills no category.
pub open spec fn bot_locks(p: Player) -> Seq<usize> {
    let t = p.dice_throw;
    let empty = open_categories(p.point_table.points_thrown@, 13);
    if empty.len() == 0 || !has_important(empty) || p.number_of_throws == 3 {
        Seq::empty()
    } else {
        match rating_of(empty) {
            Rating::Double => {
                let (a, b, e1, e2) = pair_scan(t, 10);
                if a.len() > b.len() { a } else { b }
            },
            Rating::Straight => straight_locks(t),
            Rating::FullHouse => full_house_locks(t),
            Rating::Sacrifice => Seq::empty(),
        }
    }
}

/// Entering the current throw in any open category stays within a byte.
pub open spec fn bot_ready(p: Player) -> bool {
    forall|c: usize| c < 13 && #[trigger] p.point_table.points_thrown[c as int] is None ==> entry_defined(p, c)
}

fn try_first_scoring(game: &mut Game, empty_categories: &Vec<usize>, cands: [usize; 3], n: usize) -> (filled: bool)
    requires
        1 <= n <= 3,
        old(game).current_player_index < old(game).all_players@.len(),
        bot_ready(old(game).current_player),
        empty_categories@ == open_categories(old(game).current_player.point_table.points_thrown@, 13),
        forall|i: int| 0 <= i < n ==> #[trigger] cands@[i] < 13,
    ensures
        first_scoring(old(game).current_player, cands@.take(n as int)) matches Some(c)
            ==> filled && entry_effect(*old(game), *final(game), c),
        first_scoring(old(game).current_player, cands@.take(n as int)) is None ==> !filled && *final(game) == *old(game),
{
    let ghost p = game.current_player;
    proof {
        lemma_open_categories(p.point_table.points_thrown@, 13);
    }
    let mut k: usize = 0;
    assert(cands@.take(n as int).skip(0) =~= cands@.take(n as int));
    while k < n
        invariant
            0 <= k <= n <= 3,
            *game == *old(game),
            p == old(game).current_player,
            old(game).current_player_index < old(game).all_players@.len(),
            bot_ready(p),
            empty_categories@ == open_categories(p.point_table.points_thrown@, 13),
            forall|c: usize| #[trigger] open_categories(p.point_table.points_thrown@, 13).contains(c)
                <==> (c < 13 && p.point_table.points_thrown[c as int] is None),
            forall|i: int| 0 <= i < n ==> #[trigger] cands@[i] < 13,
            first_scoring(p, cands@.take(n as int)) == first_scoring(p, cands@.take(n as int).skip(k as int)),
        decreases n - k,
    {
        let c = cands[k];
        let ghost rest = cands@.take(n as int).skip(k as int);
        assert(rest[0] == c);
        assert(rest.drop_first() =~= cands@.take(n as int).skip(k + 1));
        if holds_category(empty_categories, c) && calculate_points(c, game.current_player.dice_throw) != 0 {
            add_dice_point_table(game, c);
            return true;
        }
        k = k + 1;
    }
    assert(cands@.take(n as int).skip(n as int).len() == 0);
    false
}

/// One decision step of the bot for the current player: fill a category, or put dice
/// aside for the next throw, as `bot_fill` and `bot_locks` describe.
pub fn achieve_best_category(game: &mut Game)
    requires
        old(game).current_player_index < old(game).all_players@.len(),
        bot_ready(old(game).current_player),
    ensures
        bot_fill(old(game).current_player) matches Some(c) ==> entry_effect(*old(game), *final(game), c),
        bot_fill(old(game).current_player) is None
            ==> locks_added(*old(game), *final(game), bot_locks(old(game).current_player)),
{
    let ghost p = game.current_player;
    let ghost pts = p.point_table.points_thrown@;
    let ghost t = p.dice_throw;
    let empty_categories = game.current_player.calculate_empty_categories();
    proof {
        lemma_open_categories(pts, 13);
        assert(locks_added(*old(game), *game, Seq::empty()));
    }
    let mut important: Vec<usize> = Vec::new();
    let mut sacrifices: Vec<usize> = Vec::new();
    if empty_categories.len() == 0 {
        return;
    }
    let mut i: usize = 0;
    while i < empty_categories.len()
        invariant
            0 <= i <= empty_categories@.len(),
            important@.len() > 0 <==> (exists|j: int| 0 <= j < i && is_important(#[trigger] empty_categories@[j])),
        decreases empty_categories@.len() - i,
    {
        let category = empty_categories[i];
        if category < 3 || category == 12 {
            sacrifices.push(category);
        } else {
            important.push(category);
            assert(is_important(empty_categories@[i as int]));
        }
        i = i + 1;
    }
    proof {
        assert forall|j: int| 0 <= j < empty_categories@.len() implies points_defined(#[trigger] empty_categories@[j], t) by {
            assert(empty_categories@.contains(empty_categories@[j]));
        }
    }
    if important.len() != 0 {
        if game.current_player.number_of_throws == 3 {
            if let Some(category) = find_max_points(game.current_player.dice_throw, empty_categories) {
                proof {
                    lemma_max_scan(t, pts_list(pts), pts_list(pts).len() as int);
                }
                add_dice_point_table(game, category);
            }
        } else {
            let rating = rate_throw(empty_categories.clone(), game.current_player.dice_throw);
            match rating {
                Rating::Double => {
                    if try_first_scoring(game, &empty_categories, [11, 7, 6], 3) {
                        proof {
                            assert(seq![11usize, 7usize, 6usize] =~= [11usize, 7usize, 6usize]@.take(3));
                        }
                        return;
                    }
                    proof {
                        assert(seq![11usize, 7usize, 6usize] =~= [11usize, 7usize, 6usize]@.take(3));
                    }
                    let dice_equal_at = two_or_more_equal_at(game.current_player.dice_throw);
                    if dice_equal_at[0].len() > dice_equal_at[1].len() {
                        block_dice(game, dice_equal_at[0].clone());
                    } else if !dice_equal_at[1].is_empty() {
                        block_dice(game, dice_equal_at[1].clone());
                    }
                },
                Rating::Straight => {
                    if try_first_scoring(game, &empty_categories, [10, 9, 0], 2) {
                        proof {
                            assert(seq![10usize, 9usize] =~= [10usize, 9usize, 0usize]@.take(2));
                        }
                        return;
                    }
                    proof {
                        assert(seq![10usize, 9usize] =~= [10usize, 9usize, 0usize]@.take(2));
                    }
                    block_straight(game);
                },
                Rating::FullHouse => {
                    if calculate_points(8, game.current_player.dice_throw) != 0 {
                        add_dice_point_table(game, 8);
                    } else {
                        block_full_house(game);
                    }
                },
                Rating::Sacrifice => {
                    if let Some(category) = find_max_points(game.current_player.dice_throw, empty_categories) {
                        proof {
                            lemma_max_scan(t, pts_list(pts), pts_list(pts).len() as int);
                        }
                        add_dice_point_table(game, category);
                    }
                },
            }
        }
    } else {
        if let Some(category) = find_max_points(game.current_player.dice_throw, empty_categories) {
            proof {
                lemma_max_scan(t, pts_list(pts), pts_list(pts).len() as int);
            }
            add_dice_point_table(game, category);
        }
    }
}

/// The open categories of a sheet (shorthand).
pub open spec fn pts_list(pts: Seq<Option<u8>>) -> Seq<usize> {
    open_categories(pts, 13)
}

/// The most points a category can score with dice showing at most six eyes.
pub open spec fn category_cap(c: usize) -> int {
    if c <= 5 { 5 * (c + 1) } else if c == 8 { 25 } else if c == 10 { 40 } else if c == 11 { 50 } else { 30 }
}

/// Every die shows at most six eyes.
pub open spec fn dice_in_range(t: DiceThrow) -> bool {
    forall|i: int| 0 <= i < 5 ==> #[trigger] t[i].eyes <= 6
}

/// Whatever the dice show (at most six eyes each), entering them in any open category
/// keeps the totals within a byte.
pub open spec fn turn_safe(p: Player) -> bool {
    forall|c: usize| c < 13 && #[trigger] p.point_table.points_thrown[c as int] is None
        ==> totals_fit(entered(p.point_table.points_thrown@, c, category_cap(c)))
}

pub proof fn lemma_points_capped(c: usize, t: DiceThrow)
    requires
        c < 13,
        dice_in_range(t),
    ensures
        points_defined(c, t),
        0 <= points_of(c, t) <= category_cap(c),
{
    let e = eyes_of(t);
    assert(t[0].eyes <= 6 && t[1].eyes <= 6 && t[2].eyes <= 6 && t[3].eyes <= 6 && t[4].eyes <= 6);
    lemma_count_five(e, 255);
    let cu = c as u8;
    assert(cu as int == c as int);
    if cu <= 5 {
        let f = (cu + 1) as u8;
        lemma_count_five(e, f);
        let k = count_of_face(e, f);
        assert(0 <= k <= 5);
        assert(0 <= (cu + 1) * k <= 5 * (cu + 1)) by (nonlinear_arith)
            requires
                0 <= k <= 5,
                0 <= cu <= 5,
        ;
    }
}

pub open spec fn count_of_face(e: Seq<u8>, f: u8) -> nat {
    crate::kniffel::count_of(e, f)
}

pub proof fn lemma_slot_sum_le(a: Seq<Option<u8>>, b: Seq<Option<u8>>, lo: int, hi: int)
    requires
        forall|i: int| lo <= i < hi ==> slot_points(a, i) <= slot_points(b, i),
    ensures
        slot_sum(a, lo, hi) <= slot_sum(b, lo, hi),
    decreases hi - lo,
{
    if lo < hi {
        lemma_slot_sum_le(a, b, lo, hi - 1);
    }
}

/// With dice in range, a turn-safe sheet may take the throw in any open category.
pub proof fn lemma_turn_safe_ready(p: Player)
    requires
        turn_safe(p),
        dice_in_range(p.dice_throw),
    ensures
        bot_ready(p),
{
    assert forall|c: usize| c < 13 && #[trigger] p.point_table.points_thrown[c as int] is None implies entry_defined(p, c) by {
        lemma_points_capped(c, p.dice_throw);
        let pts = p.point_table.points_thrown@;
        let a = entered(pts, c, points_of(c, p.dice_throw));
        let b = entered(pts, c, category_cap(c));
        assert(category_cap(c) <= 255);
        assert forall|i: int| 0 <= i < 13 implies slot_points(a, i) <= slot_points(b, i) by {}
        lemma_slot_sum_le(a, b, 0, 6);
        lemma_slot_sum_le(a, b, 6, 13);
    }
}

/// How many categories of `pts[0..n]` are filled.
pub open spec fn filled_count(pts: Seq<Option<u8>>, n: int) -> int
    decreases n,
{
    if n <= 0 { 0 } else { filled_count(pts, n - 1) + if pts[n - 1] is Some { 1int } else { 0 } }
}

pub proof fn lemma_filled_count_entry(pts: Seq<Option<u8>>, c: int, v: u8, n: int)
    requires
        0 <= c < pts.len(),
        pts[c] is None,
        0 <= n <= pts.len(),
    ensures
        filled_count(pts.update(c, Some(v)), n) == filled_count(pts, n) + if c < n { 1int } else { 0 },
    decreases n,
{
    if n > 0 {
        lemma_filled_count_entry(pts, c, v, n - 1);
    }
}

fn count_filled(pts: &[Option<u8>; 13]) -> (r: usize)
    ensures
        r == filled_count(pts@, 13),
{
    let mut r: usize = 0;
    let mut i: usize = 0;
    while i < 13
        invariant
            0 <= i <= 13,
            r == filled_count(pts@, i as int),
            r <= i,
        decreases 13 - i,
    {
        if pts[i].is_some() {
            r = r + 1;
        }
        i = i + 1;
    }
    r
}

pub open spec fn throw_measure(throws: u8) -> int {
    if throws >= 3 { 4 } else { 2 - throws }
}

/// `t` is a throw that can follow the dice `d` within a turn: no die shows more than six
/// eyes, and the dice that were put aside in `d` still show their eyes.
pub open spec fn throw_after(d: DiceThrow, t: DiceThrow) -> bool {
    forall|i: int| 0 <= i < 5 ==> #[trigger] t[i].eyes <= 6 && (d[i].is_locked ==> t[i].eyes == d[i].eyes)
}

/// `g1` is `g0` after a whole turn of the bot whose turn it is: the other players are
/// as they were; starting with at most two throws, the bot threw once more at least and
/// three times at most; if a category was open, exactly one open category now holds the
/// points of a throw of that turn, the totals follow the sheet, and the sheet is copied
/// into the player list; with no open category the sheet stays as it was.
pub open spec fn bot_turn_done(g0: Game, g1: Game) -> bool {
    let pts0 = g0.current_player.point_table.points_thrown@;
    let pts1 = g1.current_player.point_table.points_thrown@;
    let idx = g0.current_player_index as int;
    &&& g1.current_player_index == g0.current_player_index
    &&& g1.number_of_players == g0.number_of_players
    &&& g1.all_players@.len() == g0.all_players@.len()
    &&& g1.current_player.kind == g0.current_player.kind
    &&& forall|j: int| 0 <= j < g0.all_players@.len() && j != idx
        ==> #[trigger] g1.all_players@[j] == g0.all_players@[j]
    &&& g0.current_player.number_of_throws <= 2 ==> g0.current_player.number_of_throws
        < g1.current_player.number_of_throws <= 3
    &&& open_categories(pts0, 13).len() > 0 ==> {
        &&& exists|c: usize, t: DiceThrow| c < 13 && pts0[c as int] is None
            && throw_after(g0.current_player.dice_throw, t)
            && #[trigger] entered(pts0, c, points_of(c, t)) == pts1
        &&& g1.current_player.point_table.total_points@.map_values(|p: u8| p as int) == totals_of(pts1)
        &&& g1.all_players@[idx] == g1.current_player
    }
    &&& open_categories(pts0, 13).len() == 0 ==> pts1 == pts0
}

/// A whole turn of a bot: throw, decide, and so on, until a category is filled (at the
/// latest after the third throw). The dice come from chance; what holds of every
/// outcome is `bot_turn_done`.
pub fn bot_game_turn(game: &mut Game)
    requires
        old(game).current_player_index < old(game).all_players@.len(),
        dice_in_range(old(game).current_player.dice_throw),
        turn_safe(old(game).current_player),
    ensures
        bot_turn_done(*old(game), *final(game)),
{
    let ghost g0 = *game;
    let ghost pts0 = game.current_player.point_table.points_thrown@;
    let ghost d0 = game.current_player.dice_throw;
    let ghost n0 = game.current_player.number_of_throws;
    let ghost idx = game.current_player_index as int;
    proof {
        lemma_open_categories(pts0, 13);
    }
    let filled_before = count_filled(&game.current_player.point_table.points_thrown);
    loop
        invariant_except_break
            game.current_player.point_table == g0.current_player.point_table,
            dice_in_range(game.current_player.dice_throw),
            forall|i: int| 0 <= i < 5 && d0[i].is_locked ==> #[trigger] game.current_player.dice_throw[i] == d0[i],
            n0 <= 2 ==> n0 <= game.current_player.number_of_throws <= 2,
        invariant
            game.current_player_index == g0.current_player_index < game.all_players@.len(),
            game.all_players@.len() == g0.all_players@.len(),
            game.number_of_players == g0.number_of_players,
            game.current_player.kind == g0.current_player.kind,
            pts0 == g0.current_player.point_table.points_thrown@,
            d0 == g0.current_player.dice_throw,
            n0 == g0.current_player.number_of_throws,
            idx == g0.current_player_index as int,
            turn_safe(g0.current_player),
            filled_before == filled_count(pts0, 13),
            forall|c: usize| #[trigger] open_categories(pts0, 13).contains(c) <==> (c < 13 && pts0[c as int] is None),
            forall|j: int| 0 <= j < g0.all_players@.len() && j != idx
                ==> #[trigger] game.all_players@[j] == g0.all_players@[j],
        ensures
            ({
                let pts1 = game.current_player.point_table.points_thrown@;
                &&& open_categories(pts0, 13).len() > 0 ==> {
                    &&& exists|c: usize, t: DiceThrow| c < 13 && pts0[c as int] is None && throw_after(d0, t)
                        && #[trigger] entered(pts0, c, points_of(c, t)) == pts1
                    &&& game.current_player.point_table.total_points@.map_values(|p: u8| p as int) == totals_of(pts1)
                    &&& game.all_players@[game.current_player_index as int] == game.current_player
                }
                &&& open_categories(pts0, 13).len() == 0 ==> pts1 == pts0
                &&& n0 <= 2 ==> n0 < game.current_player.number_of_throws <= 3
            }),
        decreases throw_measure(game.current_player.number_of_throws),
    {
        let ghost m0 = throw_measure(game.current_player.number_of_throws);
        let ghost g_before = *game;
        throw_dice(game);
        proof {
            assert forall|i: int| 0 <= i < 5 implies #[trigger] game.current_player.dice_throw[i].eyes <= 6 by {
                assert(g_before.current_player.dice_throw[i].eyes <= 6);
            }
            assert forall|i: int| 0 <= i < 5 && d0[i].is_locked implies #[trigger] game.current_player.dice_throw[i] == d0[i] by {
                assert(g_before.current_player.dice_throw[i] == d0[i]);
            }
            lemma_turn_safe_ready(game.current_player);
        }
        let ghost g1 = *game;
        achieve_best_category(game);
        let filled_after = count_filled(&game.current_player.point_table.points_thrown);
        proof {
            match bot_fill(g1.current_player) {
                Some(c) => {
                    let p = g1.current_player;
                    let t = p.dice_throw;
                    let empty = open_categories(pts0, 13);
                    if empty.len() > 0 && (!has_important(empty) || p.number_of_throws == 3) {
                        lemma_max_scan(t, empty, empty.len() as int);
                    }
                    if empty.len() > 0 && has_important(empty) && p.number_of_throws != 3
                        && rating_of(empty) == Rating::Sacrifice {
                        lemma_max_scan(t, empty, empty.len() as int);
                    }
                    lemma_first_scoring_open(p, seq![11usize, 7usize, 6usize]);
                    lemma_first_scoring_open(p, seq![10usize, 9usize]);
                    assert(empty.contains(c));
                    let v = points_of(c, t) as u8;
                    lemma_filled_count_entry(pts0, c as int, v, 13);
                    assert(pts0.update(c as int, Some(v)) == game.current_player.point_table.points_thrown@);
                    assert(throw_after(d0, t));
                    assert(entered(pts0, c, points_of(c, t)) == game.current_player.point_table.points_thrown@);
                },
                None => {
                    assert forall|i: int| 0 <= i < 5 && d0[i].is_locked implies #[trigger] game.current_player.dice_throw[i] == d0[i] by {
                        assert(g1.current_player.dice_throw[i] == d0[i]);
                    }
                },
            }
        }
        if filled_after > filled_before {
            break;
        }
        if game.current_player.number_of_throws >= 3 {
            let ghost g2 = *game;
            achieve_best_category(game);
            proof {
                let p = g2.current_player;
                let empty = open_categories(pts0, 13);
                if empty.len() > 0 {
                    lemma_max_scan(p.dice_throw, empty, empty.len() as int);
                    let c = max_scan(p.dice_throw, empty, empty.len() as int).1;
                    let v = points_of(c, p.dice_throw) as u8;
                    assert(pts0.update(c as int, Some(v)) == game.current_player.point_table.points_thrown@);
                    assert(throw_after(d0, p.dice_throw));
                    assert(entered(pts0, c, points_of(c, p.dice_throw)) == game.current_player.point_table.points_thrown@);
                }
            }
            break;
        }
        assert(throw_measure(game.current_player.number_of_throws) < m0);
        proof {
            assert forall|i: int| 0 <= i < 5 implies #[trigger] game.current_player.dice_throw[i].eyes <= 6 by {
                assert(g1.current_player.dice_throw[i].eyes <= 6);
            }
        }
    }
}

pub proof fn lemma_first_scoring_open(p: Player, cands: Seq<usize>)
    ensures
        first_scoring(p, cands) matches Some(c) ==> open_categories(p.point_table.points_thrown@, 13).contains(c),
    decreases cands.len(),
{
    if cands.len() > 0 {
        lemma_first_scoring_open(p, cands.drop_first());
    }
}

} // verus!
