//! The monument puzzle: five coins, each showing a number, must be placed so
//! that `a + b * c^2 + d^3 - e` equals 399.

use vstd::prelude::*;
use crate::synacor_vm::{SynacorVM, VmState};
use crate::text::{
    chars_of, contains_str, extend, has_sub, lines_of, split_lines, string_of, strs, suffix_from,
};

verus! {

/// The value the monument's equation must reach.
pub const MONUMENT_TARGET: i64 = 399;

/// A coin and the number it shows.
pub struct Coin {
    pub name: String,
    pub val: u16,
}

pub open spec fn formula_spec(a: int, b: int, c: int, d: int, e: int) -> int {
    a + b * (c * c) + (d * d * d) - e
}

/// `a + b * c^2 + d^3 - e`.
pub fn formula(a: u16, b: u16, c: u16, d: u16, e: u16) -> (r: i64)
    ensures
        r == formula_spec(a as int, b as int, c as int, d as int, e as int),
{
    let (a, b, c, d, e) = (a as i64, b as i64, c as i64, d as i64, e as i64);
    proof {
        assert(0 <= c * c <= 65535 * 65535) by (nonlinear_arith)
            requires
                0 <= c <= 65535,
        ;
        assert(0 <= b * (c * c) <= 65535 * (65535 * 65535)) by (nonlinear_arith)
            requires
                0 <= b <= 65535,
                0 <= c * c <= 65535 * 65535,
        ;
        assert(0 <= d * d <= 65535 * 65535) by (nonlinear_arith)
            requires
                0 <= d <= 65535,
        ;
        assert(0 <= d * d * d <= 65535 * 65535 * 65535) by (nonlinear_arith)
            requires
                0 <= d <= 65535,
                0 <= d * d <= 65535 * 65535,
        ;
    }
    a + b * (c * c) + (d * d * d) - e
}

/// Whether indices `a` to `e` are distinct places in `coins` whose numbers
/// satisfy the equation for `target`.
pub open spec fn places_work(coins: Seq<u16>, a: int, b: int, c: int, d: int, e: int, target: int) -> bool {
    &&& 0 <= a < coins.len() && 0 <= b < coins.len() && 0 <= c < coins.len()
    &&& 0 <= d < coins.len() && 0 <= e < coins.len()
    &&& a != b && a != c && a != d && a != e && b != c && b != d && b != e && c != d && c != e && d != e
    &&& formula_spec(
        coins[a] as int,
        coins[b] as int,
        coins[c] as int,
        coins[d] as int,
        coins[e] as int,
    ) == target
}

/// The numbers of five distinct coins, in the order that satisfies the
/// equation for `target`; empty when no order does.
pub fn solution_for(coins: &Vec<u16>, target: i64) -> (r: Vec<u16>)
    ensures
        r.len() == 0 || r.len() == 5,
        r.len() == 5 ==> exists|a: int, b: int, c: int, d: int, e: int|
            places_work(coins@, a, b, c, d, e, target as int) && r@ == seq![
                coins@[a],
                coins@[b],
                coins@[c],
                coins@[d],
                coins@[e],
            ],
        r.len() == 0 ==> forall|a: int, b: int, c: int, d: int, e: int|
            !#[trigger] places_work(coins@, a, b, c, d, e, target as int),
{
    let n = coins.len();
    let ghost t = target as int;
    let mut a: usize = 0;
    while a < n
        invariant
            n == coins.len(),
            t == target,
            a <= n,
            forall|a1: int, b: int, c: int, d: int, e: int|
                a1 < a ==> !#[trigger] places_work(coins@, a1, b, c, d, e, t),
        decreases n - a,
    {
        let mut b: usize = 0;
        while b < n
            invariant
                n == coins.len(),
                t == target,
                a < n,
                b <= n,
                forall|a1: int, b1: int, c: int, d: int, e: int|
                    a1 < a || (a1 == a && b1 < b) ==> !#[trigger] places_work(coins@, a1, b1, c, d, e, t),
            decreases n - b,
        {
            let mut c: usize = 0;
            while c < n
                invariant
                    n == coins.len(),
                    t == target,
                    a < n,
                    b < n,
                    c <= n,
                    forall|a1: int, b1: int, c1: int, d: int, e: int|
                        a1 < a || (a1 == a && b1 < b) || (a1 == a && b1 == b && c1 < c)
                            ==> !#[trigger] places_work(coins@, a1, b1, c1, d, e, t),
                decreases n - c,
            {
                let mut d: usize = 0;
                while d < n
                    invariant
                        n == coins.len(),
                        t == target,
                        a < n,
                        b < n,
                        c < n,
                        d <= n,
                        forall|a1: int, b1: int, c1: int, d1: int, e: int|
                            a1 < a || (a1 == a && b1 < b) || (a1 == a && b1 == b && c1 < c) || (a1
                                == a && b1 == b && c1 == c && d1 < d) ==> !#[trigger] places_work(
                                coins@,
                                a1,
                                b1,
                                c1,
                                d1,
                                e,
                                t,
                            ),
                    decreases n - d,
                {
                    let mut e: usize = 0;
                    while e < n
                        invariant
                            n == coins.len(),
                            t == target,
                            a < n,
                            b < n,
                            c < n,
                            d < n,
                            e <= n,
                            forall|a1: int, b1: int, c1: int, d1: int, e1: int|
                                a1 < a || (a1 == a && b1 < b) || (a1 == a && b1 == b && c1 < c) || (
                                a1 == a && b1 == b && c1 == c && d1 < d) || (a1 == a && b1 == b
                                    && c1 == c && d1 == d && e1 < e) ==> !#[trigger] places_work(
                                    coins@,
                                    a1,
                                    b1,
                                    c1,
                                    d1,
                                    e1,
                                    t,
                                ),
                        decreases n - e,
                    {
                        let distinct = a != b && a != c && a != d && a != e && b != c && b != d
                            && b != e && c != d && c != e && d != e;
                        if distinct && formula(coins[a], coins[b], coins[c], coins[d], coins[e])
                            == target {
                            let r = vec![coins[a], coins[b], coins[c], coins[d], coins[e]];
                            assert(places_work(
                                coins@,
                                a as int,
                                b as int,
                                c as int,
                                d as int,
                                e as int,
                                t,
                            ));
                            assert(r@ =~= seq![
                                coins@[a as int],
                                coins@[b as int],
                                coins@[c as int],
                                coins@[d as int],
                                coins@[e as int],
                            ]);
                            return r;
                        }
                        e = e + 1;
                    }
                    d = d + 1;
                }
                c = c + 1;
            }
            b = b + 1;
        }
        a = a + 1;
    }
    Vec::new()
}

/// The numbers on the monument's coins.
pub open spec fn monument_coins() -> Seq<u16> {
    seq![2u16, 7, 3, 9, 5]
}

/// The order of the monument's coins: 2, 7, 3, 9 and 5, placed so the
/// equation gives 399.
pub fn solution() -> (r: Vec<u16>)
    ensures
        r.len() == 0 || r.len() == 5,
        r.len() == 5 ==> exists|a: int, b: int, c: int, d: int, e: int|
            places_work(monument_coins(), a, b, c, d, e, 399) && r@ == seq![
                monument_coins()[a],
                monument_coins()[b],
                monument_coins()[c],
                monument_coins()[d],
                monument_coins()[e],
            ],
        r.len() == 0 ==> forall|a: int, b: int, c: int, d: int, e: int|
            !#[trigger] places_work(monument_coins(), a, b, c, d, e, 399),
{
    let coins: Vec<u16> = vec![2, 7, 3, 9, 5];
    assert(coins@ =~= monument_coins());
    solution_for(&coins, MONUMENT_TARGET)
}

/// The number a coin's description shows: by the first of "two",
/// "triangle", "pentagon", "seven" and "nine" that it mentions; 0 for none.
pub open spec fn coin_value_spec(text: Seq<char>) -> u16 {
    if has_sub(text, "two"@) {
        2
    } else if has_sub(text, "triangle"@) {
        3
    } else if has_sub(text, "pentagon"@) {
        5
    } else if has_sub(text, "seven"@) {
        7
    } else if has_sub(text, "nine"@) {
        9
    } else {
        0
    }
}

pub fn coin_value(text: &Vec<char>) -> (r: u16)
    ensures
        r == coin_value_spec(text@),
{
    if contains_str(text, "two") {
        2
    } else if contains_str(text, "triangle") {
        3
    } else if contains_str(text, "pentagon") {
        5
    } else if contains_str(text, "seven") {
        7
    } else if contains_str(text, "nine") {
        9
    } else {
        0
    }
}

/// Where a scan of an inventory listing stands.
pub struct InventoryScan {
    pub at_inv: bool,
    pub stopped: bool,
    pub items: Seq<Seq<char>>,
}

/// One line of a listing: the header opens the list; in it, each line of two
/// or more characters names an item after a two-character bullet, and a
/// shorter line ends the scan.
pub open spec fn inventory_line(st: InventoryScan, line: Seq<char>) -> InventoryScan {
    if st.stopped {
        st
    } else if has_sub(line, "Your inventory:"@) {
        InventoryScan { at_inv: true, ..st }
    } else if st.at_inv {
        if line.len() < 2 {
            InventoryScan { stopped: true, ..st }
        } else {
            InventoryScan { items: st.items.push(line.subrange(2, line.len() as int)), ..st }
        }
    } else {
        st
    }
}

pub open spec fn inventory_scan(lines: Seq<Seq<char>>) -> InventoryScan
    decreases lines.len(),
{
    if lines.len() == 0 {
        InventoryScan { at_inv: false, stopped: false, items: Seq::empty() }
    } else {
        inventory_line(inventory_scan(lines.drop_last()), lines.last())
    }
}

/// The items an inventory listing names.
pub fn parse_inventory(inventory: String) -> (r: Vec<String>)
    ensures
        strs(r@) == inventory_scan(split_lines(inventory@)).items,
{
    let lines = lines_of(&chars_of(inventory.as_str()));
    let ghost ls = lines@.map_values(|l: Vec<char>| l@);
    let mut inv: Vec<String> = Vec::new();
    let mut at_inv = false;
    let mut i: usize = 0;
    while i < lines.len()
        invariant
            ls == lines@.map_values(|l: Vec<char>| l@),
            ls == split_lines(inventory@),
            i <= lines.len(),
            ({
                let st = inventory_scan(ls.subrange(0, i as int));
                &&& !st.stopped
                &&& st.at_inv == at_inv
                &&& st.items == strs(inv@)
            }),
        decreases lines.len() - i,
    {
        let ghost before = inv@;
        assert(ls.subrange(0, i + 1).drop_last() =~= ls.subrange(0, i as int));
        let line = &lines[i];
        assert(ls.subrange(0, i + 1).last() == line@);
        if contains_str(line, "Your inventory:") {
            at_inv = true;
        } else if at_inv {
            if line.len() < 2 {
                proof {
                    lemma_stopped_stays(ls, i + 1);
                }
                return inv;
            }
            inv.push(string_of(&suffix_from(line, 2)));
            assert(strs(inv@) =~= strs(before).push(line@.subrange(2, line@.len() as int)));
        }
        i = i + 1;
    }
    assert(ls.subrange(0, ls.len() as int) =~= ls);
    inv
}

/// Once a scan has stopped, later lines change nothing.
proof fn lemma_stopped_stays(ls: Seq<Seq<char>>, k: int)
    requires
        0 <= k <= ls.len(),
        inventory_scan(ls.subrange(0, k)).stopped,
    ensures
        inventory_scan(ls) == inventory_scan(ls.subrange(0, k)),
    decreases ls.len() - k,
{
    if k < ls.len() {
        assert(ls.subrange(0, k + 1).drop_last() =~= ls.subrange(0, k));
        lemma_stopped_stays(ls, k + 1);
    } else {
        assert(ls.subrange(0, k) =~= ls);
    }
}

/// Looks at a coin and reads its number from the description.
pub fn examine_coin(vm: &mut SynacorVM, coin_name: String) -> (r: Coin)
    requires
        old(vm).wf(),
    ensures
        final(vm).wf(),
        final(vm)@ == (VmState { output: Seq::empty(), ..old(vm)@.feed("look "@ + coin_name@) }),
        r.name@ == coin_name@,
        r.val == coin_value_spec(old(vm)@.feed("look "@ + coin_name@).output),
{
    let mut line = chars_of("look ");
    extend(&mut line, &chars_of(coin_name.as_str()));
    vm.input_line_string(string_of(&line));
    let look = vm.output_line(true);
    let val = coin_value(&chars_of(look.as_str()));
    Coin { name: coin_name, val }
}

/// The coin to use for each number of a solution, in order: the first coin
/// showing that number; a number no coin shows is skipped.
pub open spec fn coin_plan(coins: Seq<Coin>, solution: Seq<u16>) -> Seq<Seq<char>>
    decreases solution.len(),
{
    if solution.len() == 0 {
        Seq::empty()
    } else {
        let rest = coin_plan(coins, solution.drop_last());
        let v = solution.last();
        if exists|i: int| 0 <= i < coins.len() && coins[i].val == v {
            let i = choose|i: int|
                0 <= i < coins.len() && coins[i].val == v && forall|j: int|
                    0 <= j < i ==> #[trigger] coins[j].val != v;
            rest.push(coins[i].name@)
        } else {
            rest
        }
    }
}

proof fn lemma_first_match(coins: Seq<Coin>, v: u16, i: int)
    requires
        0 <= i < coins.len(),
        coins[i].val == v,
        forall|j: int| 0 <= j < i ==> #[trigger] coins[j].val != v,
    ensures
        (choose|ii: int|
            0 <= ii < coins.len() && coins[ii].val == v && forall|j: int|
                0 <= j < ii ==> #[trigger] coins[j].val != v) == i,
{
    let c = choose|ii: int|
        0 <= ii < coins.len() && coins[ii].val == v && forall|j: int|
            0 <= j < ii ==> #[trigger] coins[j].val != v;
    if c < i {
        assert(coins[c].val != v);
    } else if c > i {
        assert(coins[i].val != v);
    }
}

/// The names of the coins to use, in order, for a solution.
pub fn plan_coins(coins: &Vec<Coin>, solution: &Vec<u16>) -> (r: Vec<String>)
    ensures
        strs(r@) == coin_plan(coins@, solution@),
{
    let mut r: Vec<String> = Vec::new();
    let mut k: usize = 0;
    while k < solution.len()
        invariant
            k <= solution.len(),
            strs(r@) == coin_plan(coins@, solution@.subrange(0, k as int)),
        decreases solution.len() - k,
    {
        let v = solution[k];
        let ghost pre = solution@.subrange(0, k as int);
        let ghost next = solution@.subrange(0, k + 1);
        assert(next.drop_last() =~= pre);
        let ghost before = r@;
        let mut i: usize = 0;
        while i < coins.len()
            invariant
                i <= coins.len(),
                forall|j: int| 0 <= j < i ==> #[trigger] coins@[j].val != v,
            ensures
                i <= coins.len(),
                forall|j: int| 0 <= j < i ==> #[trigger] coins@[j].val != v,
                i < coins.len() ==> coins@[i as int].val == v,
            decreases coins.len() - i,
        {
            if coins[i].val == v {
                break;
            }
            i = i + 1;
        }
        if i < coins.len() {
            r.push(coins[i].name.clone());
            proof {
                lemma_first_match(coins@, v, i as int);
                assert(strs(r@) =~= strs(before).push(coins@[i as int].name@));
            }
        }
        k = k + 1;
    }
    assert(solution@.subrange(0, solution.len() as int) =~= solution@);
    r
}

/// The items whose names mention a coin, in order.
pub open spec fn coins_in(items: Seq<Seq<char>>) -> Seq<Seq<char>>
    decreases items.len(),
{
    if items.len() == 0 {
        Seq::empty()
    } else {
        let rest = coins_in(items.drop_last());
        if has_sub(items.last(), "coin"@) {
            rest.push(items.last())
        } else {
            rest
        }
    }
}

/// The coins among the items of an inventory.
pub fn coin_items(items: &Vec<String>) -> (r: Vec<String>)
    ensures
        strs(r@) == coins_in(strs(items@)),
{
    let mut r: Vec<String> = Vec::new();
    let mut i: usize = 0;
    while i < items.len()
        invariant
            i <= items.len(),
            strs(r@) == coins_in(strs(items@).subrange(0, i as int)),
        decreases items.len() - i,
    {
        let ghost before = r@;
        assert(strs(items@).subrange(0, i + 1).drop_last() =~= strs(items@).subrange(0, i as int));
        assert(strs(items@).subrange(0, i + 1).last() == items@[i as int]@);
        if contains_str(&chars_of(items[i].as_str()), "coin") {
            r.push(items[i].clone());
            assert(strs(r@) =~= strs(before).push(items@[i as int]@));
        }
        i = i + 1;
    }
    assert(strs(items@).subrange(0, items.len() as int) =~= strs(items@));
    r
}

} // verus!
