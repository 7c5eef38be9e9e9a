use vstd::prelude::*;
use vstd::relations::*;
use crate::sorting::{ascending, byte_leq, lemma_byte_leq_total, sort_bytes};

verus! {

/// One die: the number of eyes it shows (0 before the first throw) and
/// whether the player has put it aside.
#[derive(Clone, Copy, Debug, PartialEq, Eq, Structural)]
pub struct Dice {
    pub eyes: u8,
    pub is_locked: bool,
}

impl Dice {
    pub fn new(eyes: u8) -> (d: Dice)
        ensures
            d.eyes == eyes,
            !d.is_locked,
    {
        Dice { eyes, is_locked: false }
    }
}

/// The five dice of a throw.
pub type DiceThrow = [Dice; 5];

/// The eyes of the five dice, in order.
pub open spec fn eyes_of(t: DiceThrow) -> Seq<u8> {
    seq![t[0].eyes, t[1].eyes, t[2].eyes, t[3].eyes, t[4].eyes]
}

/// How many of the dice show `v`.
pub open spec fn count_of(e: Seq<u8>, v: u8) -> nat {
    e.to_multiset().count(v)
}

/// The sum of all eyes.
pub open spec fn sum_of(e: Seq<u8>) -> int {
    e[0] + e[1] + e[2] + e[3] + e[4]
}

/// Some value shows on at least `n` dice.
pub open spec fn n_of_a_kind(t: DiceThrow, n: nat) -> bool {
    exists|v: u8| #[trigger] count_of(eyes_of(t), v) >= n
}

/// One value shows on exactly three dice and another on exactly two.
pub open spec fn is_full_house(t: DiceThrow) -> bool {
    exists|v: u8, w: u8| #[trigger] count_of(eyes_of(t), v) == 3 && #[trigger] count_of(eyes_of(t), w) == 2
}

/// All five dice show the same value.
pub open spec fn all_equal(t: DiceThrow) -> bool {
    forall|i: int| 0 <= i < 5 ==> #[trigger] eyes_of(t)[i] == eyes_of(t)[0]
}

pub open spec fn ind(b: bool) -> int {
    if b { 1 } else { 0 }
}

/// In a sorted sequence of five values: how many neighbours differ by exactly one.
pub open spec fn rising_steps(s: Seq<u8>) -> int {
    ind(s[0] + 1 == s[1]) + ind(s[1] + 1 == s[2]) + ind(s[2] + 1 == s[3]) + ind(s[3] + 1 == s[4])
}

/// The straight tests add one to the four smallest values; that stays within a byte
/// unless two dice show 255.
pub open spec fn straight_defined(t: DiceThrow) -> bool {
    count_of(eyes_of(t), 255) <= 1
}

pub proof fn lemma_count_five(s: Seq<u8>, v: u8)
    requires
        s.len() == 5,
    ensures
        count_of(s, v) == ind(s[0] == v) + ind(s[1] == v) + ind(s[2] == v) + ind(s[3] == v) + ind(s[4] == v),
{
    broadcast use vstd::seq_lib::group_to_multiset_ensures;
    broadcast use vstd::multiset::group_multiset_axioms;
    let e = Seq::<u8>::empty();
    assert(e.to_multiset() =~= vstd::multiset::Multiset::empty());
    assert(s =~= e.push(s[0]).push(s[1]).push(s[2]).push(s[3]).push(s[4]));
}

/// Facts on the ascending arrangement of five values.
pub proof fn lemma_ascending_five(e: Seq<u8>)
    requires
        e.len() == 5,
    ensures
        ascending(e).len() == 5,
        ascending(e)[0] <= ascending(e)[1] <= ascending(e)[2] <= ascending(e)[3] <= ascending(e)[4],
        forall|v: u8| #[trigger] count_of(ascending(e), v) == count_of(e, v),
{
    broadcast use vstd::seq_lib::group_to_multiset_ensures;
    lemma_byte_leq_total();
    e.lemma_sort_by_ensures(byte_leq());
    let s = ascending(e);
    assert(s.to_multiset().len() == e.to_multiset().len());
    assert(sorted_by(s, byte_leq()));
    assert(byte_leq()(s[0], s[1]));
    assert(byte_leq()(s[1], s[2]));
    assert(byte_leq()(s[2], s[3]));
    assert(byte_leq()(s[3], s[4]));
}

fn eyes_vec(t: DiceThrow) -> (v: Vec<u8>)
    ensures
        v@ == eyes_of(t),
{
    let mut v: Vec<u8> = Vec::new();
    v.push(t[0].eyes);
    v.push(t[1].eyes);
    v.push(t[2].eyes);
    v.push(t[3].eyes);
    v.push(t[4].eyes);
    assert(v@ =~= eyes_of(t));
    v
}

/// The eyes of the throw in ascending order.
fn sorted_eyes(t: DiceThrow) -> (s: Vec<u8>)
    ensures
        s@ == ascending(eyes_of(t)),
        s@.len() == 5,
        s@[0] <= s@[1] <= s@[2] <= s@[3] <= s@[4],
        forall|v: u8| #[trigger] count_of(s@, v) == count_of(eyes_of(t), v),
{
    let mut s = eyes_vec(t);
    sort_bytes(&mut s);
    proof {
        lemma_ascending_five(eyes_of(t));
    }
    s
}

/// At least three dice show the same value.
pub fn three_same(dice_throw: DiceThrow) -> (r: bool)
    ensures
        r == n_of_a_kind(dice_throw, 3),
{
    let dice_roll = sorted_eyes(dice_throw);
    let ghost s = dice_roll@;
    let ghost e = eyes_of(dice_throw);
    let mut dice_index: usize = 0;
    while dice_index <= 2
        invariant
            0 <= dice_index <= 3,
            dice_roll@ == s,
            s.len() == 5,
            e == eyes_of(dice_throw),
            forall|v: u8| #[trigger] count_of(s, v) == count_of(e, v),
            forall|k: int| 0 <= k < dice_index ==> !(#[trigger] s[k] == s[k + 1] && s[k] == s[k + 2]),
        decreases 3 - dice_index,
    {
        if dice_roll[dice_index] == dice_roll[dice_index + 1]
            && dice_roll[dice_index] == dice_roll[dice_index + 2] {
            proof {
                let v = s[dice_index as int];
                lemma_count_five(s, v);
                assert(count_of(e, v) >= 3);
            }
            return true;
        }
        dice_index = dice_index + 1;
    }
    proof {
        assert(!(s[0] == s[1] && s[0] == s[2]));
        assert(!(s[1] == s[2] && s[1] == s[3]));
        assert(!(s[2] == s[3] && s[2] == s[4]));
        assert forall|v: u8| !(#[trigger] count_of(e, v) >= 3) by {
            lemma_count_five(s, v);
        }
    }
    false
}

/// At least four dice show the same value.
pub fn four_same(dice_throw: DiceThrow) -> (r: bool)
    ensures
        r == n_of_a_kind(dice_throw, 4),
{
    let dice_roll = sorted_eyes(dice_throw);
    let ghost s = dice_roll@;
    let ghost e = eyes_of(dice_throw);
    let mut dice_index: usize = 0;
    while dice_index <= 1
        invariant
            0 <= dice_index <= 2,
            dice_roll@ == s,
            s.len() == 5,
            e == eyes_of(dice_throw),
            forall|v: u8| #[trigger] count_of(s, v) == count_of(e, v),
            forall|k: int| 0 <= k < dice_index ==> !(#[trigger] s[k] == s[k + 1] && s[k] == s[k + 2] && s[k] == s[k + 3]),
        decreases 2 - dice_index,
    {
        if dice_roll[dice_index] == dice_roll[dice_index + 1]
            && dice_roll[dice_index] == dice_roll[dice_index + 2]
            && dice_roll[dice_index] == dice_roll[dice_index + 3] {
            proof {
                let v = s[dice_index as int];
                lemma_count_five(s, v);
                assert(count_of(e, v) >= 4);
            }
            return true;
        }
        dice_index = dice_index + 1;
    }
    proof {
        assert(!(s[0] == s[1] && s[0] == s[2] && s[0] == s[3]));
        assert(!(s[1] == s[2] && s[1] == s[3] && s[1] == s[4]));
        assert forall|v: u8| !(#[trigger] count_of(e, v) >= 4) by {
            lemma_count_five(s, v);
        }
    }
    false
}

/// Three dice show one value and the other two another value.
pub fn full_house(dice_throw: DiceThrow) -> (r: bool)
    ensures
        r == is_full_house(dice_throw),
{
    let ghost e = eyes_of(dice_throw);
    if !three_same(dice_throw) {
        proof {
            assert forall|v: u8, w: u8| !(#[trigger] count_of(e, v) == 3 && #[trigger] count_of(e, w) == 2) by {
                assert(!(count_of(e, v) >= 3));
            }
        }
        false
    } else {
        let dice_roll = sorted_eyes(dice_throw);
        let ghost s = dice_roll@;
        let r = if dice_roll[0] == dice_roll[2] {
            dice_roll[3] == dice_roll[4] && dice_roll[2] != dice_roll[3]
        } else {
            dice_roll[0] == dice_roll[1] && dice_roll[1] != dice_roll[2]
        };
        proof {
            let v0 = choose|v: u8| #[trigger] count_of(e, v) >= 3;
            lemma_count_five(s, v0);
            if r {
                if s[0] == s[2] {
                    lemma_count_five(s, s[0]);
                    lemma_count_five(s, s[3]);
                    assert(count_of(e, s[0]) == 3 && count_of(e, s[3]) == 2);
                } else {
                    lemma_count_five(s, s[0]);
                    lemma_count_five(s, s[2]);
                    assert(count_of(e, s[2]) == 3 && count_of(e, s[0]) == 2);
                }
            } else {
                assert forall|v: u8, w: u8| !(#[trigger] count_of(e, v) == 3 && #[trigger] count_of(e, w) == 2) by {
                    lemma_count_five(s, v);
                    lemma_count_five(s, w);
                }
            }
        }
        r
    }
}

/// Counts the neighbours of the sorted eyes that differ by one.
fn count_rising_steps(dice_throw: DiceThrow) -> (r: u8)
    requires
        straight_defined(dice_throw),
    ensures
        r == rising_steps(ascending(eyes_of(dice_throw))),
{
    let dice_roll = sorted_eyes(dice_throw);
    let ghost s = dice_roll@;
    proof {
        lemma_count_five(s, 255);
    }
    let mut counter: u8 = 0;
    let mut index: usize = 0;
    while index <= 3
        invariant
            0 <= index <= 4,
            dice_roll@ == s,
            s.len() == 5,
            s[0] < 255 && s[1] < 255 && s[2] < 255 && s[3] < 255,
            counter == (if index > 0 { ind(s[0] + 1 == s[1]) } else { 0 })
                + (if index > 1 { ind(s[1] + 1 == s[2]) } else { 0 })
                + (if index > 2 { ind(s[2] + 1 == s[3]) } else { 0 })
                + (if index > 3 { ind(s[3] + 1 == s[4]) } else { 0 }),
        decreases 4 - index,
    {
        if dice_roll[index] + 1 == dice_roll[index + 1] {
            counter = counter + 1;
        }
        index = index + 1;
    }
    counter
}

/// Four values in a row, `a` to `a + 3`, all show on some die.
pub open spec fn four_in_a_row(e: Seq<u8>) -> bool {
    exists|a: int| 0 <= a <= 252 && #[trigger] run_of_four(e, a)
}

/// The values `a` to `a + 3` all show on some die.
pub open spec fn run_of_four(e: Seq<u8>, a: int) -> bool {
    &&& e.contains(a as u8)
    &&& e.contains((a + 1) as u8)
    &&& e.contains((a + 2) as u8)
    &&& e.contains((a + 3) as u8)
}

/// Whether some die shows `v`.
fn shows(dice_throw: DiceThrow, v: u8) -> (r: bool)
    ensures
        r == eyes_of(dice_throw).contains(v),
{
    let ghost e = eyes_of(dice_throw);
    let mut i: usize = 0;
    while i < 5
        invariant
            0 <= i <= 5,
            e == eyes_of(dice_throw),
            forall|j: int| 0 <= j < i ==> e[j] != v,
        decreases 5 - i,
    {
        if dice_throw[i].eyes == v {
            assert(e[i as int] == v);
            return true;
        }
        i = i + 1;
    }
    assert(!e.contains(v)) by {
        if e.contains(v) {
            let j = choose|j: int| 0 <= j < e.len() && e[j] == v;
        }
    }
    false
}

/// Small straight: four values in a row all show on the dice.
pub fn small_straight(dice_throw: DiceThrow) -> (r: bool)
    ensures
        r == four_in_a_row(eyes_of(dice_throw)),
{
    let ghost e = eyes_of(dice_throw);
    let mut a: u8 = 0;
    while a <= 252
        invariant
            0 <= a <= 253,
            e == eyes_of(dice_throw),
            forall|b: int| 0 <= b < a ==> !#[trigger] run_of_four(e, b),
        decreases 253 - a,
    {
        if shows(dice_throw, a) && shows(dice_throw, a + 1) && shows(dice_throw, a + 2) && shows(dice_throw, a + 3) {
            assert(run_of_four(e, a as int));
            return true;
        }
        a = a + 1;
    }
    false
}

/// The values `a` to `a + 4` all show on some die.
pub open spec fn run_of_five(e: Seq<u8>, a: int) -> bool {
    &&& e.contains(a as u8)
    &&& e.contains((a + 1) as u8)
    &&& e.contains((a + 2) as u8)
    &&& e.contains((a + 3) as u8)
    &&& e.contains((a + 4) as u8)
}

proof fn lemma_sorted_run(s: Seq<u8>, a: int)
    requires
        s.len() == 5,
        s[0] <= s[1] <= s[2] <= s[3] <= s[4],
        0 <= a <= 251,
        run_of_five(s, a),
    ensures
        s[0] == a && s[1] == a + 1 && s[2] == a + 2 && s[3] == a + 3 && s[4] == a + 4,
{
    let j0 = choose|j: int| 0 <= j < 5 && s[j] == a as u8;
    let j1 = choose|j: int| 0 <= j < 5 && s[j] == (a + 1) as u8;
    let j2 = choose|j: int| 0 <= j < 5 && s[j] == (a + 2) as u8;
    let j3 = choose|j: int| 0 <= j < 5 && s[j] == (a + 3) as u8;
    let j4 = choose|j: int| 0 <= j < 5 && s[j] == (a + 4) as u8;
    assert(j0 < j1 && j1 < j2 && j2 < j3 && j3 < j4);
}

/// A large straight scores 40 exactly when the five dice show five consecutive values
/// (each of `a` to `a + 4` once), and nothing otherwise: four in a row with a gap to the
/// fifth die is no large straight.
pub proof fn lemma_large_straight_scores(t: DiceThrow)
    ensures
        points_of(10, t) == 40 || points_of(10, t) == 0,
        points_of(10, t) == 40 <==> exists|a: int| 0 <= a <= 251 && #[trigger] run_of_five(eyes_of(t), a),
{
    broadcast use vstd::seq_lib::group_to_multiset_ensures;
    let e = eyes_of(t);
    let s = ascending(e);
    lemma_ascending_five(e);
    assert forall|v: u8| #[trigger] e.contains(v) == s.contains(v) by {
        assert(count_of(s, v) == count_of(e, v));
    }
    if rising_steps(s) >= 4 {
        let a = s[0] as int;
        assert(s.contains(s[0]) && s.contains(s[1]) && s.contains(s[2]) && s.contains(s[3]) && s.contains(s[4]));
        assert(run_of_five(e, a));
    }
    if exists|a: int| 0 <= a <= 251 && #[trigger] run_of_five(e, a) {
        let a = choose|a: int| 0 <= a <= 251 && #[trigger] run_of_five(e, a);
        assert(run_of_five(s, a));
        lemma_sorted_run(s, a);
    }
}

proof fn lemma_kinds_relate(t: DiceThrow)
    ensures
        points_of(7, t) == 0 || points_of(6, t) == points_of(7, t),
        points_of(11, t) == 50 ==> points_of(6, t) == points_of(12, t) && points_of(7, t) == points_of(12, t),
        points_of(8, t) == 25 ==> points_of(6, t) == points_of(12, t),
{
    let e = eyes_of(t);
    if n_of_a_kind(t, 4) {
        let v = choose|v: u8| #[trigger] count_of(e, v) >= 4;
        assert(count_of(e, v) >= 3);
    }
    if all_equal(t) {
        lemma_count_five(e, e[0]);
        assert(e[1] == e[0] && e[2] == e[0] && e[3] == e[0] && e[4] == e[0]);
        assert(count_of(e, e[0]) >= 4);
        assert(count_of(e, e[0]) >= 3);
    }
    if is_full_house(t) {
        let (v, w) = choose|v: u8, w: u8| #[trigger] count_of(e, v) == 3 && #[trigger] count_of(e, w) == 2;
        assert(count_of(e, v) >= 3);
    }
}

proof fn lemma_chance_is_upper(t: DiceThrow)
    requires
        forall|i: int| 0 <= i < 5 ==> 1 <= #[trigger] t[i].eyes <= 6,
    ensures
        points_of(12, t) == points_of(0, t) + points_of(1, t) + points_of(2, t) + points_of(3, t) + points_of(4, t)
            + points_of(5, t),
{
    let e = eyes_of(t);
    assert(1 <= t[0].eyes <= 6 && 1 <= t[1].eyes <= 6 && 1 <= t[2].eyes <= 6 && 1 <= t[3].eyes <= 6 && 1 <= t[4].eyes <= 6);
    lemma_count_five(e, 1);
    lemma_count_five(e, 2);
    lemma_count_five(e, 3);
    lemma_count_five(e, 4);
    lemma_count_five(e, 5);
    lemma_count_five(e, 6);
    assert(points_of(0, t) == count_of(e, 1));
    assert(points_of(1, t) == 2 * count_of(e, 2));
    assert(points_of(2, t) == 3 * count_of(e, 3));
    assert(points_of(3, t) == 4 * count_of(e, 4));
    assert(points_of(4, t) == 5 * count_of(e, 5));
    assert(points_of(5, t) == 6 * count_of(e, 6));
}

/// How the categories of one throw relate: a large straight is also a small straight;
/// four of a kind also counts as three of a kind, with the same points; a Kniffel counts
/// as three and as four of a kind, and a full house as three of a kind, each with all
/// eyes (the chance); and with every die showing one to six eyes, the chance is what the
/// six upper categories score together.
pub proof fn lemma_category_relations(t: DiceThrow)
    ensures
        points_of(10, t) == 40 ==> points_of(9, t) == 30,
        points_of(7, t) == 0 || points_of(6, t) == points_of(7, t),
        points_of(11, t) == 50 ==> points_of(6, t) == points_of(12, t) && points_of(7, t) == points_of(12, t),
        points_of(8, t) == 25 ==> points_of(6, t) == points_of(12, t),
        (forall|i: int| 0 <= i < 5 ==> 1 <= #[trigger] t[i].eyes <= 6) ==> points_of(12, t) == points_of(0, t)
            + points_of(1, t) + points_of(2, t) + points_of(3, t) + points_of(4, t) + points_of(5, t),
{
    lemma_large_straight_scores(t);
    if points_of(10, t) == 40 {
        let a = choose|a: int| 0 <= a <= 251 && #[trigger] run_of_five(eyes_of(t), a);
        assert(run_of_four(eyes_of(t), a));
    }
    lemma_kinds_relate(t);
    if forall|i: int| 0 <= i < 5 ==> 1 <= #[trigger] t[i].eyes <= 6 {
        lemma_chance_is_upper(t);
    }
}

/// Large straight: all four neighbours of the sorted eyes differ by one.
pub fn large_straight(dice_throw: DiceThrow) -> (r: bool)
    requires
        straight_defined(dice_throw),
    ensures
        r == (rising_steps(ascending(eyes_of(dice_throw))) >= 4),
        r <==> exists|a: int| 0 <= a <= 251 && #[trigger] run_of_five(eyes_of(dice_throw), a),
{
    proof {
        lemma_large_straight_scores(dice_throw);
    }
    let counter = count_rising_steps(dice_throw);
    if counter > 3 {
        return true;
    }
    false
}

/// All five dice show the same value.
pub fn kniffel(dice_throw: DiceThrow) -> (r: bool)
    ensures
        r == all_equal(dice_throw),
{
    let ghost e = eyes_of(dice_throw);
    let mut dice: usize = 0;
    while dice < 4
        invariant
            0 <= dice <= 4,
            e == eyes_of(dice_throw),
            forall|i: int| 0 <= i <= dice ==> #[trigger] e[i] == e[0],
        decreases 4 - dice,
    {
        if dice_throw[dice].eyes != dice_throw[dice + 1].eyes {
            proof {
                assert(e[dice as int] != e[dice as int + 1]);
            }
            return false;
        }
        dice = dice + 1;
    }
    true
}

/// The points a throw scores in a category. The category is first cut to a byte,
/// as the score sheet does; categories beyond 12 score 255.
pub open spec fn points_of(category: usize, t: DiceThrow) -> int {
    let c = category as u8;
    let e = eyes_of(t);
    if c <= 5 {
        (c + 1) * count_of(e, (c + 1) as u8)
    } else if c == 6 {
        if n_of_a_kind(t, 3) { sum_of(e) } else { 0 }
    } else if c == 7 {
        if n_of_a_kind(t, 4) { sum_of(e) } else { 0 }
    } else if c == 8 {
        if is_full_house(t) { 25 } else { 0 }
    } else if c == 9 {
        if four_in_a_row(e) { 30 } else { 0 }
    } else if c == 10 {
        if rising_steps(ascending(e)) >= 4 { 40 } else { 0 }
    } else if c == 11 {
        if all_equal(t) { 50 } else { 0 }
    } else if c == 12 {
        sum_of(e)
    } else {
        255
    }
}

/// The inputs on which scoring stays within a byte.
pub open spec fn points_defined(category: usize, t: DiceThrow) -> bool {
    let c = category as u8;
    let e = eyes_of(t);
    &&& (c == 6 && n_of_a_kind(t, 3) ==> sum_of(e) <= 255)
    &&& (c == 7 && n_of_a_kind(t, 4) ==> sum_of(e) <= 255)
    &&& (c == 12 ==> sum_of(e) <= 255)
    &&& (c == 10 ==> straight_defined(t))
}

fn sum_eyes(dice_throw: DiceThrow) -> (sum: u8)
    requires
        sum_of(eyes_of(dice_throw)) <= 255,
    ensures
        sum == sum_of(eyes_of(dice_throw)),
{
    let ghost e = eyes_of(dice_throw);
    let mut sum: u8 = 0;
    let mut i: usize = 0;
    while i < 5
        invariant
            0 <= i <= 5,
            e == eyes_of(dice_throw),
            sum_of(e) <= 255,
            sum == (if i > 0 { e[0] as int } else { 0 }) + (if i > 1 { e[1] as int } else { 0 })
                + (if i > 2 { e[2] as int } else { 0 }) + (if i > 3 { e[3] as int } else { 0 })
                + (if i > 4 { e[4] as int } else { 0 }),
        decreases 5 - i,
    {
        sum = sum + dice_throw[i].eyes;
        i = i + 1;
    }
    sum
}

fn face_points(dice_throw: DiceThrow, face: u8) -> (sum: u8)
    requires
        1 <= face <= 6,
    ensures
        sum == face * count_of(eyes_of(dice_throw), face),
{
    let ghost e = eyes_of(dice_throw);
    proof {
        lemma_count_five(e, face);
    }
    let mut sum: u8 = 0;
    let mut i: usize = 0;
    while i < 5
        invariant
            0 <= i <= 5,
            1 <= face <= 6,
            e == eyes_of(dice_throw),
            sum == face * ((if i > 0 { ind(e[0] == face) } else { 0 }) + (if i > 1 { ind(e[1] == face) } else { 0 })
                + (if i > 2 { ind(e[2] == face) } else { 0 }) + (if i > 3 { ind(e[3] == face) } else { 0 })
                + (if i > 4 { ind(e[4] == face) } else { 0 })),
            sum <= face * i,
        decreases 5 - i,
    {
        if dice_throw[i].eyes == face {
            proof {
                assert(face * i <= 30) by (nonlinear_arith)
                    requires
                        face <= 6,
                        i < 5,
                ;
            }
            sum = sum + face;
        }
        proof {
            let k = (if i > 0 { ind(e[0] == face) } else { 0 }) + (if i > 1 { ind(e[1] == face) } else { 0 })
                + (if i > 2 { ind(e[2] == face) } else { 0 }) + (if i > 3 { ind(e[3] == face) } else { 0 })
                + (if i > 4 { ind(e[4] == face) } else { 0 });
            assert(face * (k + 1) == face * k + face) by (nonlinear_arith);
            assert(face * (i + 1) == face * i + face) by (nonlinear_arith);
        }
        i = i + 1;
    }
    sum
}

/// The points that `dice_throw` scores in `category` (0-5: ones to sixes, 6: three of a
/// kind, 7: four of a kind, 8: full house, 9: small straight, 10: large straight,
/// 11: Kniffel, 12: chance).
pub fn calculate_points(category: usize, dice_throw: DiceThrow) -> (r: u8)
    requires
        points_defined(category, dice_throw),
    ensures
        r == points_of(category, dice_throw),
{
    let u8_category = category as u8;
    if u8_category <= 5 {
        face_points(dice_throw, u8_category + 1)
    } else if u8_category == 6 {
        if three_same(dice_throw) { sum_eyes(dice_throw) } else { 0 }
    } else if u8_category == 7 {
        if four_same(dice_throw) { sum_eyes(dice_throw) } else { 0 }
    } else if u8_category == 8 {
        if full_house(dice_throw) { 25 } else { 0 }
    } else if u8_category == 9 {
        if small_straight(dice_throw) { 30 } else { 0 }
    } else if u8_category == 10 {
        if large_straight(dice_throw) { 40 } else { 0 }
    } else if u8_category == 11 {
        if kniffel(dice_throw) { 50 } else { 0 }
    } else if u8_category == 12 {
        sum_eyes(dice_throw)
    } else {
        255
    }
}

/// The score sheet of one player: the points entered in each of the 13 categories
/// (`None` while open) and the totals: upper section, upper section with bonus,
/// lower section, grand total.
#[derive(Clone, Copy, Debug, PartialEq)]
pub struct PointTable {
    pub points_thrown: [Option<u8>; 13],
    pub total_points: [u8; 4],
}

#[derive(Clone, Copy, PartialEq, Eq, Debug, Structural)]
pub enum PlayerKind {
    Human,
    Bot,
}

#[derive(Clone, Copy, Debug, PartialEq)]
pub struct Player {
    pub point_table: PointTable,
    pub number_of_throws: u8,
    pub dice_throw: DiceThrow,
    pub kind: PlayerKind,
}

/// The points in a slot of the sheet, 0 while it is open.
pub open spec fn slot_points(pts: Seq<Option<u8>>, i: int) -> int {
    match pts[i] {
        Some(p) => p as int,
        None => 0,
    }
}

/// The points entered in slots `lo..hi`.
pub open spec fn slot_sum(pts: Seq<Option<u8>>, lo: int, hi: int) -> int
    decreases hi - lo,
{
    if hi <= lo {
        0
    } else {
        slot_sum(pts, lo, hi - 1) + slot_points(pts, hi - 1)
    }
}

pub open spec fn upper_sum(pts: Seq<Option<u8>>) -> int {
    slot_sum(pts, 0, 6)
}

pub open spec fn lower_sum(pts: Seq<Option<u8>>) -> int {
    slot_sum(pts, 6, 13)
}

/// 35 bonus points once the upper section holds more than 62 points.
pub open spec fn with_bonus(upper: int) -> int {
    if upper > 62 { upper + 35 } else { upper }
}

/// The four totals of a sheet with these entries.
pub open spec fn totals_of(pts: Seq<Option<u8>>) -> Seq<int> {
    seq![upper_sum(pts), with_bonus(upper_sum(pts)), lower_sum(pts),
        with_bonus(upper_sum(pts)) + lower_sum(pts)]
}

/// All four totals fit into a byte.
pub open spec fn totals_fit(pts: Seq<Option<u8>>) -> bool {
    with_bonus(upper_sum(pts)) + lower_sum(pts) <= 255
}

pub proof fn lemma_slot_sum_nonneg(pts: Seq<Option<u8>>, lo: int, hi: int)
    ensures
        0 <= slot_sum(pts, lo, hi),
    decreases hi - lo,
{
    if lo < hi {
        lemma_slot_sum_nonneg(pts, lo, hi - 1);
    }
}

pub proof fn lemma_slot_sum_monotone(pts: Seq<Option<u8>>, lo: int, mid: int, hi: int)
    requires
        lo <= mid <= hi,
    ensures
        0 <= slot_sum(pts, lo, mid) <= slot_sum(pts, lo, hi),
    decreases hi - mid,
{
    lemma_slot_sum_nonneg(pts, lo, mid);
    if mid < hi {
        lemma_slot_sum_monotone(pts, lo, mid, hi - 1);
    }
}

proof fn lemma_slot_sum_split(pts: Seq<Option<u8>>, lo: int, mid: int, hi: int)
    requires
        lo <= mid <= hi,
    ensures
        slot_sum(pts, lo, hi) == slot_sum(pts, lo, mid) + slot_sum(pts, mid, hi),
    decreases hi - mid,
{
    if mid < hi {
        lemma_slot_sum_split(pts, lo, mid, hi - 1);
    }
}

/// How the four totals of a sheet add up: the upper total is the sum of the six upper
/// entries; the upper total with bonus is 35 more once the upper total reaches 63 and
/// the same otherwise; the lower total is the sum of the seven lower entries; and the
/// grand total is the upper total with bonus plus the lower total, that is, the sum of
/// all thirteen entries plus the bonus.
pub proof fn lemma_totals_add_up(pts: Seq<Option<u8>>)
    ensures
        totals_of(pts).len() == 4,
        totals_of(pts)[0] == slot_sum(pts, 0, 6),
        totals_of(pts)[1] == totals_of(pts)[0] + if totals_of(pts)[0] >= 63 { 35int } else { 0int },
        totals_of(pts)[2] == slot_sum(pts, 6, 13),
        totals_of(pts)[3] == totals_of(pts)[1] + totals_of(pts)[2],
        totals_of(pts)[3] == slot_sum(pts, 0, 13) + if slot_sum(pts, 0, 6) >= 63 { 35int } else { 0int },
{
    lemma_slot_sum_split(pts, 0, 6, 13);
}

impl PointTable {
    pub fn new() -> (t: PointTable)
        ensures
            forall|i: int| 0 <= i < 13 ==> #[trigger] t.points_thrown[i] is None,
            forall|i: int| 0 <= i < 4 ==> #[trigger] t.total_points[i] == 0,
    {
        PointTable { points_thrown: [None; 13], total_points: [0; 4] }
    }
}

fn sum_slots(pts: &[Option<u8>; 13], lo: usize, hi: usize) -> (sum: u8)
    requires
        lo <= hi <= 13,
        slot_sum(pts@, lo as int, hi as int) <= 255,
    ensures
        sum == slot_sum(pts@, lo as int, hi as int),
{
    let mut sum: u8 = 0;
    let mut point_index = lo;
    while point_index < hi
        invariant
            lo <= point_index <= hi <= 13,
            slot_sum(pts@, lo as int, hi as int) <= 255,
            sum == slot_sum(pts@, lo as int, point_index as int),
        decreases hi - point_index,
    {
        proof {
            lemma_slot_sum_monotone(pts@, lo as int, point_index + 1, hi as int);
        }
        if pts[point_index].is_some() {
            sum = sum + pts[point_index].unwrap();
        }
        point_index = point_index + 1;
    }
    sum
}

/// Recomputes the four totals of a sheet from its entries.
pub fn update_totals_point_table(point_table: PointTable) -> (r: PointTable)
    requires
        totals_fit(point_table.points_thrown@),
    ensures
        r.points_thrown == point_table.points_thrown,
        r.total_points@.map_values(|p: u8| p as int) == totals_of(point_table.points_thrown@),
{
    let mut point_table = point_table;
    let ghost pts = point_table.points_thrown@;
    proof {
        lemma_slot_sum_monotone(pts, 0, 0, 6);
        lemma_slot_sum_monotone(pts, 6, 6, 13);
    }
    let sum_top = sum_slots(&point_table.points_thrown, 0, 6);
    let mut sum_top_with_bonus = sum_top;
    if sum_top > 62 {
        sum_top_with_bonus = sum_top_with_bonus + 35;
    }
    let sum_bottom = sum_slots(&point_table.points_thrown, 6, 13);
    let sum_total = sum_top_with_bonus + sum_bottom;
    point_table.total_points = [sum_top, sum_top_with_bonus, sum_bottom, sum_total];
    assert(point_table.total_points@.map_values(|p: u8| p as int) =~= totals_of(pts));
    point_table
}

/// The open categories of a sheet among `0..n`, in ascending order.
pub open spec fn open_categories(pts: Seq<Option<u8>>, n: int) -> Seq<usize>
    decreases n,
{
    if n <= 0 {
        Seq::empty()
    } else if pts[n - 1] is None {
        open_categories(pts, n - 1).push((n - 1) as usize)
    } else {
        open_categories(pts, n - 1)
    }
}

pub proof fn lemma_open_categories(pts: Seq<Option<u8>>, n: int)
    requires
        0 <= n <= pts.len(),
        n <= usize::MAX,
    ensures
        forall|c: usize| #[trigger] open_categories(pts, n).contains(c) <==> (c < n && pts[c as int] is None),
        forall|i: int| 0 <= i < open_categories(pts, n).len() ==> #[trigger] open_categories(pts, n)[i] < n,
        open_categories(pts, n).len() <= n,
    decreases n,
{
    if n > 0 {
        lemma_open_categories(pts, n - 1);
        let prev = open_categories(pts, n - 1);
        if pts[n - 1] is None {
            assert forall|c: usize| #[trigger] open_categories(pts, n).contains(c) <==> (c < n && pts[c as int] is None) by {
                if c == n - 1 {
                    assert(open_categories(pts, n)[prev.len() as int] == c);
                }
                if open_categories(pts, n).contains(c) && c != n - 1 {
                    let i = choose|i: int| 0 <= i < open_categories(pts, n).len() && open_categories(pts, n)[i] == c;
                    if i < prev.len() {
                        assert(prev[i] == c);
                    }
                }
                if prev.contains(c) {
                    let i = choose|i: int| 0 <= i < prev.len() && prev[i] == c;
                    assert(open_categories(pts, n)[i] == c);
                }
            }
            assert forall|i: int| 0 <= i < open_categories(pts, n).len() implies #[trigger] open_categories(pts, n)[i] < n by {
                if i < prev.len() {
                    assert(open_categories(pts, n)[i] == prev[i]);
                }
            }
        }
    }
}

/// A fresh player of the given kind: empty sheet, no throw yet, five dice showing 0.
pub open spec fn fresh_player(p: Player, kind: PlayerKind) -> bool {
    &&& forall|i: int| 0 <= i < 13 ==> #[trigger] p.point_table.points_thrown[i] is None
    &&& forall|i: int| 0 <= i < 4 ==> #[trigger] p.point_table.total_points[i] == 0
    &&& p.number_of_throws == 0
    &&& forall|i: int| 0 <= i < 5 ==> #[trigger] p.dice_throw[i] == Dice { eyes: 0, is_locked: false }
    &&& p.kind == kind
}

impl Player {
    pub fn human() -> (p: Player)
        ensures
            fresh_player(p, PlayerKind::Human),
    {
        Player {
            point_table: PointTable::new(),
            number_of_throws: 0,
            dice_throw: [Dice::new(0); 5],
            kind: PlayerKind::Human,
        }
    }

    pub fn bot() -> (p: Player)
        ensures
            fresh_player(p, PlayerKind::Bot),
    {
        Player { kind: PlayerKind::Bot, ..Player::human() }
    }

    pub fn is_bot(&self) -> (r: bool)
        ensures
            r == (self.kind == PlayerKind::Bot),
    {
        self.kind == PlayerKind::Bot
    }

    /// The categories this player has not filled yet, in ascending order.
    pub fn calculate_empty_categories(&self) -> (r: Vec<usize>)
        ensures
            r@ == open_categories(self.point_table.points_thrown@, 13),
    {
        let mut empty_categories: Vec<usize> = Vec::new();
        let mut category: usize = 0;
        while category < 13
            invariant
                0 <= category <= 13,
                empty_categories@ == open_categories(self.point_table.points_thrown@, category as int),
            decreases 13 - category,
        {
            if self.point_table.points_thrown[category].is_none() {
                empty_categories.push(category);
            }
            category = category + 1;
        }
        empty_categories
    }
}

/// A game of Kniffel: all players, a working copy of the player whose turn it is,
/// that player's index and the number of players.
#[derive(Clone, Debug, PartialEq)]
pub struct Game {
    pub all_players: Vec<Player>,
    pub current_player: Player,
    pub current_player_index: usize,
    pub number_of_players: usize,
}

/// The grand total of player `i`.
pub open spec fn grand_total(g: Game, i: int) -> int {
    g.all_players@[i].point_table.total_points[3] as int
}

/// The highest grand total among the first `n` players (0 if none is higher).
pub open spec fn lead_max(g: Game, n: int) -> int
    decreases n,
{
    if n <= 0 {
        0
    } else if grand_total(g, n - 1) > lead_max(g, n - 1) {
        grand_total(g, n - 1)
    } else {
        lead_max(g, n - 1)
    }
}

/// The players in `first..k` whose grand total is `m`, in ascending order.
pub open spec fn ties_from(g: Game, first: int, k: int, m: int) -> Seq<usize>
    decreases k - first,
{
    if k <= first {
        Seq::empty()
    } else if grand_total(g, k - 1) == m {
        ties_from(g, first, k - 1, m).push((k - 1) as usize)
    } else {
        ties_from(g, first, k - 1, m)
    }
}

/// Every category of every player is filled.
pub open spec fn all_tables_full(g: Game) -> bool {
    forall|p: int, c: int|
        0 <= p < g.number_of_players && 0 <= c < 13 ==> #[trigger] g.all_players@[p].point_table.points_thrown[c] is Some
}

/// The winners once every sheet is full: exactly the players with the highest grand
/// total, in ascending order.
pub open spec fn winner_list(g: Game) -> Seq<usize> {
    let n = g.number_of_players as int;
    ties_from(g, 0, n, lead_max(g, n))
}

pub proof fn lemma_ties(g: Game, first: int, k: int, m: int)
    requires
        0 <= first,
        k <= usize::MAX,
    ensures
        forall|i: int| 0 <= i < ties_from(g, first, k, m).len() ==> #[trigger] ties_from(g, first, k, m)[i] < k,
        ties_from(g, first, k, m).len() <= if k > first { k - first } else { 0 },
    decreases k - first,
{
    if k > first {
        lemma_ties(g, first, k - 1, m);
        assert forall|i: int| 0 <= i < ties_from(g, first, k, m).len() implies #[trigger] ties_from(g, first, k, m)[i] < k by {
            if i < ties_from(g, first, k - 1, m).len() {
                assert(ties_from(g, first, k, m)[i] == ties_from(g, first, k - 1, m)[i]);
            }
        }
    }
}

impl Game {
    /// A game for `players_human` humans followed by `players_bot` bots; between 2 and 4
    /// players in all.
    pub fn new(players_human: usize, players_bot: usize) -> (r: Result<Game, &'static str>)
        requires
            players_human + players_bot <= usize::MAX,
        ensures
            r is Err <==> !(2 <= players_human + players_bot <= 4),
            r matches Ok(g) ==> {
                &&& g.number_of_players == players_human + players_bot
                &&& g.all_players@.len() == players_human + players_bot
                &&& forall|i: int| 0 <= i < players_human ==> fresh_player(#[trigger] g.all_players@[i], PlayerKind::Human)
                &&& forall|i: int| players_human <= i < players_human + players_bot
                        ==> fresh_player(#[trigger] g.all_players@[i], PlayerKind::Bot)
                &&& g.current_player == g.all_players@[0]
                &&& g.current_player_index == 0
            },
    {
        let number = players_human + players_bot;
        if !(2 <= number && number <= 4) {
            return Err("Spieleranzahl wird nicht unterstützt. Nur 2-4 Spieler möglich");
        }
        let mut all_players: Vec<Player> = Vec::with_capacity(number);
        let mut i: usize = 0;
        while i < players_human
            invariant
                0 <= i <= players_human,
                all_players@.len() == i,
                forall|k: int| 0 <= k < i ==> fresh_player(#[trigger] all_players@[k], PlayerKind::Human),
            decreases players_human - i,
        {
            all_players.push(Player::human());
            i = i + 1;
        }
        let mut j: usize = 0;
        while j < players_bot
            invariant
                0 <= j <= players_bot,
                players_human + players_bot <= usize::MAX,
                all_players@.len() == players_human + j,
                forall|k: int| 0 <= k < players_human ==> fresh_player(#[trigger] all_players@[k], PlayerKind::Human),
                forall|k: int| players_human <= k < players_human + j ==> fresh_player(#[trigger] all_players@[k], PlayerKind::Bot),
            decreases players_bot - j,
        {
            all_players.push(Player::bot());
            j = j + 1;
        }
        let current_player = all_players[0];
        Ok(Game { all_players, current_player, current_player_index: 0, number_of_players: number })
    }

    /// The winners and their points once every sheet is full: the players whose grand
    /// total is the highest, in ascending order, and that total.
    pub fn winner(&self) -> (r: Result<(Vec<usize>, usize), &'static str>)
        requires
            0 < self.number_of_players <= self.all_players@.len(),
        ensures
            r is Err <==> !all_tables_full(*self),
            r matches Err(e) ==> e@ == "Noch kein Gewinner"@,
            r matches Ok((list, points)) ==> {
                &&& list@ == winner_list(*self)
                &&& points == lead_max(*self, self.number_of_players as int)
            },
    {
        let n = self.number_of_players;
        let mut k: usize = 0;
        while k < n
            invariant
                0 <= k <= n,
                n == self.number_of_players,
                0 < self.number_of_players <= self.all_players@.len(),
                k > 0 ==> all_tables_full(*self),
            decreases n - k,
        {
            if !point_table_full(self) {
                return Err("Noch kein Gewinner");
            }
            k = k + 1;
        }
        let mut max_points: u8 = 0;
        let mut index_player: usize = 0;
        while index_player < n
            invariant
                0 <= index_player <= n,
                n == self.number_of_players <= self.all_players@.len(),
                max_points == lead_max(*self, index_player as int),
            decreases n - index_player,
        {
            if self.all_players[index_player].point_table.total_points[3] > max_points {
                max_points = self.all_players[index_player].point_table.total_points[3];
            }
            index_player = index_player + 1;
        }
        let mut winner_index: Vec<usize> = Vec::new();
        let mut i: usize = 0;
        while i < n
            invariant
                0 <= i <= n,
                n == self.number_of_players <= self.all_players@.len(),
                max_points == lead_max(*self, n as int),
                winner_index@ == ties_from(*self, 0, i as int, max_points as int),
            decreases n - i,
        {
            if self.all_players[i].point_table.total_points[3] == max_points {
                winner_index.push(i);
            }
            i = i + 1;
        }
        Ok((winner_index, max_points as usize))
    }
}

/// Every category of every player is filled.
pub fn point_table_full(game: &Game) -> (r: bool)
    requires
        game.number_of_players <= game.all_players@.len(),
    ensures
        r == all_tables_full(*game),
{
    let mut player_counter: usize = 0;
    while player_counter < game.number_of_players
        invariant
            0 <= player_counter <= game.number_of_players <= game.all_players@.len(),
            forall|p: int, c: int| 0 <= p < player_counter && 0 <= c < 13
                ==> #[trigger] game.all_players@[p].point_table.points_thrown[c] is Some,
        decreases game.number_of_players - player_counter,
    {
        let mut counter: usize = 0;
        while counter < 13
            invariant
                0 <= counter <= 13,
                0 <= player_counter < game.number_of_players <= game.all_players@.len(),
                forall|c: int| 0 <= c < counter
                    ==> #[trigger] game.all_players@[player_counter as int].point_table.points_thrown[c] is Some,
            decreases 13 - counter,
        {
            if game.all_players[player_counter].point_table.points_thrown[counter].is_none() {
                return false;
            }
            counter = counter + 1;
        }
        player_counter = player_counter + 1;
    }
    true
}

/// Passes the turn on: the next player (cyclically) becomes the current player, with
/// no throw made yet.
pub fn next_player(game: &mut Game)
    requires
        0 < old(game).number_of_players <= old(game).all_players@.len(),
        old(game).current_player_index < usize::MAX,
    ensures
        final(game).current_player_index == (old(game).current_player_index + 1) % (old(game).number_of_players as int),
        final(game).current_player == (Player {
            number_of_throws: 0,
            ..old(game).all_players@[final(game).current_player_index as int]
        }),
        final(game).all_players == old(game).all_players,
        final(game).number_of_players == old(game).number_of_players,
{
    game.current_player_index = (game.current_player_index + 1) % game.number_of_players;
    game.current_player = game.all_players[game.current_player_index];
    game.current_player.number_of_throws = 0;
}

/// `g1` is `g0` after a throw with the numbers `draws` drawn for the five dice (each
/// below six): at most three throws; each die not put aside shows its number plus one,
/// the others keep theirs, and the sheet is copied into the player list. A fourth throw
/// resets the count of throws instead and leaves the dice as they are.
pub open spec fn throw_applied(g0: Game, g1: Game, draws: Seq<usize>) -> bool {
    let p0 = g0.current_player;
    let p1 = g1.current_player;
    &&& g1.current_player_index == g0.current_player_index
    &&& g1.number_of_players == g0.number_of_players
    &&& p1.point_table == p0.point_table
    &&& p1.kind == p0.kind
    &&& p0.number_of_throws > 2 ==> {
        &&& p1 == (Player { number_of_throws: 0, ..p0 })
        &&& g1.all_players == g0.all_players
    }
    &&& p0.number_of_throws <= 2 ==> {
        &&& p1.number_of_throws == p0.number_of_throws + 1
        &&& forall|i: int| 0 <= i < 5 ==> #[trigger] p1.dice_throw[i] == if p0.dice_throw[i].is_locked {
            p0.dice_throw[i]
        } else {
            Dice { eyes: (draws[i] + 1) as u8, is_locked: false }
        }
        &&& g1.all_players@ == g0.all_players@.update(g0.current_player_index as int, p1)
    }
}

/// A throw with the numbers `draws` drawn for the five dice, as `throw_applied` says.
pub fn apply_throw(game: &mut Game, draws: &[usize; 5])
    requires
        old(game).current_player_index < old(game).all_players@.len(),
        forall|i: int| 0 <= i < 5 ==> #[trigger] draws[i] < 6,
    ensures
        throw_applied(*old(game), *final(game), draws@),
{
    if game.current_player.number_of_throws > 2 {
        game.current_player.number_of_throws = 0;
    } else {
        game.current_player.number_of_throws = game.current_player.number_of_throws + 1;
        let mut current_dice: usize = 0;
        let ghost before = game.current_player.dice_throw;
        let ghost g0 = *game;
        while current_dice < 5
            invariant
                0 <= current_dice <= 5,
                game.all_players == g0.all_players,
                game.current_player_index == g0.current_player_index,
                game.number_of_players == g0.number_of_players,
                game.current_player.point_table == g0.current_player.point_table,
                game.current_player.kind == g0.current_player.kind,
                game.current_player.number_of_throws == g0.current_player.number_of_throws,
                g0.current_player_index < g0.all_players@.len(),
                forall|i: int| 0 <= i < 5 ==> #[trigger] draws[i] < 6,
                forall|i: int| 0 <= i < 5 ==> #[trigger] game.current_player.dice_throw[i] == if before[i].is_locked
                    || i >= current_dice {
                    before[i]
                } else {
                    Dice { eyes: (draws[i] + 1) as u8, is_locked: false }
                },
            decreases 5 - current_dice,
        {
            if !game.current_player.dice_throw[current_dice].is_locked {
                let roll = draws[current_dice] + 1;
                game.current_player.dice_throw[current_dice].eyes = roll as u8;
            }
            current_dice = current_dice + 1;
        }
        let index = game.current_player_index;
        game.all_players.set(index, game.current_player);
    }
}

/// Throws the dice that are not put aside (at most three throws; a fourth call resets
/// the throw count instead): a number below six is drawn at random for each die not put
/// aside, and the throw is made with them as `apply_throw` says. Which numbers are drawn
/// is chance; what holds of every outcome is stated.
pub fn throw_dice(game: &mut Game)
    requires
        old(game).current_player_index < old(game).all_players@.len(),
    ensures
        exists|draws: Seq<usize>| draws.len() == 5 && (forall|i: int| 0 <= i < 5 ==> #[trigger] draws[i] < 6)
            && #[trigger] throw_applied(*old(game), *final(game), draws),
        final(game).current_player_index == old(game).current_player_index,
        final(game).number_of_players == old(game).number_of_players,
        final(game).current_player.point_table == old(game).current_player.point_table,
        final(game).current_player.kind == old(game).current_player.kind,
        old(game).current_player.number_of_throws > 2 ==> {
            &&& final(game).current_player == (Player { number_of_throws: 0, ..old(game).current_player })
            &&& final(game).all_players == old(game).all_players
        },
        old(game).current_player.number_of_throws <= 2 ==> {
            &&& final(game).current_player.number_of_throws == old(game).current_player.number_of_throws + 1
            &&& forall|i: int| 0 <= i < 5 ==> {
                let before = #[trigger] old(game).current_player.dice_throw[i];
                let after = final(game).current_player.dice_throw[i];
                &&& after.is_locked == before.is_locked
                &&& before.is_locked ==> after.eyes == before.eyes
                &&& !before.is_locked ==> 1 <= after.eyes <= 6
            }
            &&& final(game).all_players@ == old(game).all_players@.update(
                old(game).current_player_index as int, final(game).current_player)
        },
{
    let mut draws: [usize; 5] = [0; 5];
    if game.current_player.number_of_throws <= 2 {
        let mut k: usize = 0;
        while k < 5
            invariant
                0 <= k <= 5,
                forall|i: int| 0 <= i < 5 ==> #[trigger] draws[i] < 6,
            decreases 5 - k,
        {
            if !game.current_player.dice_throw[k].is_locked {
                draws[k] = crate::rng::random_below(6);
            }
            k = k + 1;
        }
    }
    apply_throw(game, &draws);
    proof {
        assert(forall|i: int| 0 <= i < 5 ==> #[trigger] draws@[i] < 6);
    }
}

/// Puts a die aside, or takes it back.
pub fn change_blocked_status_dice(game: &mut Game, dice_index: usize) -> (r: &Game)
    requires
        dice_index < 5,
    ensures
        *r == *final(game),
        final(game).current_player.dice_throw@ == old(game).current_player.dice_throw@.update(
            dice_index as int,
            Dice { is_locked: !old(game).current_player.dice_throw[dice_index as int].is_locked,
                ..old(game).current_player.dice_throw[dice_index as int] },
        ),
        final(game).current_player.point_table == old(game).current_player.point_table,
        final(game).current_player.number_of_throws == old(game).current_player.number_of_throws,
        final(game).current_player.kind == old(game).current_player.kind,
        final(game).all_players == old(game).all_players,
        final(game).current_player_index == old(game).current_player_index,
        final(game).number_of_players == old(game).number_of_players,
{
    if game.current_player.dice_throw[dice_index].is_locked {
        game.current_player.dice_throw[dice_index].is_locked = false;
        return game;
    }
    game.current_player.dice_throw[dice_index].is_locked = true;
    game
}

/// The entries of `pts` after `points` are entered in `category`.
pub open spec fn entered(pts: Seq<Option<u8>>, category: usize, points: int) -> Seq<Option<u8>> {
    pts.update(category as int, Some(points as u8))
}

/// Entering the current throw in `category` neither overflows the score nor a total.
pub open spec fn entry_defined(p: Player, category: usize) -> bool {
    &&& points_defined(category, p.dice_throw)
    &&& totals_fit(entered(p.point_table.points_thrown@, category, points_of(category, p.dice_throw)))
}

/// `new` is `old` after the current throw was entered in `category`: the entry, the
/// recomputed totals, five cleared dice, and the sheet copied into the player list.
pub open spec fn entry_effect(old: Game, new: Game, category: usize) -> bool {
    let pts = entered(old.current_player.point_table.points_thrown@, category,
        points_of(category, old.current_player.dice_throw));
    &&& new.current_player.point_table.points_thrown@ == pts
    &&& new.current_player.point_table.total_points@.map_values(|p: u8| p as int) == totals_of(pts)
    &&& forall|i: int| 0 <= i < 5 ==> #[trigger] new.current_player.dice_throw[i] == Dice { eyes: 0, is_locked: false }
    &&& new.current_player.number_of_throws == old.current_player.number_of_throws
    &&& new.current_player.kind == old.current_player.kind
    &&& new.all_players@ == old.all_players@.update(old.current_player_index as int, new.current_player)
    &&& new.current_player_index == old.current_player_index
    &&& new.number_of_players == old.number_of_players
}

/// Enters the current throw in an open category of the current player's sheet, clears
/// the dice and updates the totals; a filled category leaves the game as it is.
pub fn add_dice_point_table(game: &mut Game, category: usize) -> (r: &Game)
    requires
        category < 13,
        old(game).current_player_index < old(game).all_players@.len(),
        old(game).current_player.point_table.points_thrown[category as int] is None
            ==> entry_defined(old(game).current_player, category),
    ensures
        *r == *final(game),
        old(game).current_player.point_table.points_thrown[category as int] is Some ==> *final(game) == *old(game),
        old(game).current_player.point_table.points_thrown[category as int] is None
            ==> entry_effect(*old(game), *final(game), category),
{
    let selected_category = game.current_player.point_table.points_thrown[category];
    if selected_category.is_none() {
        let points = calculate_points(category, game.current_player.dice_throw);
        game.current_player.point_table.points_thrown[category] = Some(points);
        game.current_player.dice_throw = [Dice::new(0); 5];
        proof {
            assert(game.current_player.point_table.points_thrown@ =~= entered(
                old(game).current_player.point_table.points_thrown@, category,
                points_of(category, old(game).current_player.dice_throw)));
        }
        game.current_player.point_table = update_totals_point_table(game.current_player.point_table);
        let index = game.current_player_index;
        game.all_players.set(index, game.current_player);
        game
    } else {
        game
    }
}

} // verus!
