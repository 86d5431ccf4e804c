//! Inverting the machine's slow confirmation routine, and a disassembler for
//! reading programs.
//!
//! The routine computes `check_6027(4, 1, k, 32768)` for a constant `k` held in
//! the eighth register; the search looks for the `k` that makes it 6. Direct
//! recursion is far too slow, so a table is filled level by level.

use std::collections::HashMap;
use vstd::prelude::*;
use crate::text::{chars_of, decimal, decimal_of, extend, string_of};
use crate::synacor_vm::{SynacorVM, VmState, RUN_LIMIT};

verus! {

broadcast use vstd::std_specs::hash::group_hash_axioms;

/// The modulus of the machine's arithmetic.
pub const U15_MOD: u32 = 32768;

/// The value that the confirmation routine must produce.
pub const TARGET_6027: u16 = 6;

/// The confirmation routine with hidden constant `k`, modulo `m`.
pub open spec fn check_6027(a: nat, b: nat, k: nat, m: nat) -> nat
    decreases a, b,
{
    if a == 0 {
        ((b + 1) as int % (m as int)) as nat
    } else if b == 0 {
        check_6027((a - 1) as nat, k, k, m)
    } else {
        check_6027((a - 1) as nat, check_6027(a, (b - 1) as nat, k, m), k, m)
    }
}

/// Every value of the routine lies below the modulus.
pub proof fn lemma_check_6027_bounded(a: nat, b: nat, k: nat, m: nat)
    requires
        m > 0,
    ensures
        check_6027(a, b, k, m) < m,
    decreases a, b,
{
    if a == 0 {
    } else if b == 0 {
        lemma_check_6027_bounded((a - 1) as nat, k, k, m);
    } else {
        lemma_check_6027_bounded(a, (b - 1) as nat, k, m);
        lemma_check_6027_bounded((a - 1) as nat, check_6027(a, (b - 1) as nat, k, m), k, m);
    }
}

/// The table key of a (level, residual) pair.
pub open spec fn key_of(r0: int, r1: int) -> int {
    r0 * U15_MOD + r1
}

pub fn tuple_key(r0: u16, r1: u16) -> (r: u32)
    requires
        r1 < U15_MOD,
    ensures
        r == key_of(r0 as int, r1 as int),
{
    assert(r0 * U15_MOD + r1 <= 0xffff * 32768 + 32767) by (nonlinear_arith)
        requires
            r0 <= 0xffff,
            r1 < 32768,
    ;
    (r0 as u32) * U15_MOD + (r1 as u32)
}

proof fn lemma_key_injective(a: int, b: int, c: int, d: int)
    requires
        0 <= b < U15_MOD,
        0 <= d < U15_MOD,
        key_of(a, b) == key_of(c, d),
    ensures
        a == c,
        b == d,
{
    assert(a == c && b == d) by (nonlinear_arith)
        requires
            0 <= b < 32768,
            0 <= d < 32768,
            a * 32768 + b == c * 32768 + d,
    ;
}

/// Whether the table holds the routine's value for (a, b).
pub open spec fn holds(cache: Map<u32, u16>, a: int, b: int, k: nat, m: nat) -> bool {
    &&& cache.contains_key(key_of(a, b) as u32)
    &&& cache[key_of(a, b) as u32] == check_6027(a as nat, b as nat, k, m)
}

/// The table holds every level below `a` in full, and level `a` up to and
/// including residual `b`.
pub open spec fn filled_to(cache: Map<u32, u16>, a: int, b: int, k: nat, m: nat) -> bool {
    forall|x: int, y: int|
        0 <= x && 0 <= y < m && (x < a || (x == a && y <= b)) ==> #[trigger] holds(cache, x, y, k, m)
}

/// One entry of the routine from the entries before it: level `r0 - 1` in
/// full and, for `r1 > 0`, entry (r0, r1 - 1).
pub fn compute_6027(r0: u16, r1: u16, r7: u16, m: u32, cache: &HashMap<u32, u16>) -> (r: u16)
    requires
        0 < m <= U15_MOD,
        r1 < m,
        r7 < m,
        r0 > 0 ==> forall|y: int| 0 <= y < m ==> #[trigger] holds(cache@, r0 - 1, y, r7 as nat, m as nat),
        r0 > 0 && r1 > 0 ==> holds(cache@, r0 as int, r1 - 1, r7 as nat, m as nat),
    ensures
        r == check_6027(r0 as nat, r1 as nat, r7 as nat, m as nat),
{
    if r0 == 0 {
        ((r1 as u32 + 1) % m) as u16
    } else if r1 == 0 {
        assert(holds(cache@, r0 - 1, r7 as int, r7 as nat, m as nat));
        match cache.get(&tuple_key(r0 - 1, r7)) {
            Some(v) => *v,
            None => 0,
        }
    } else {
        let prev = match cache.get(&tuple_key(r0, r1 - 1)) {
            Some(v) => *v,
            None => 0,
        };
        proof {
            lemma_check_6027_bounded(r0 as nat, (r1 - 1) as nat, r7 as nat, m as nat);
            assert(holds(cache@, r0 - 1, prev as int, r7 as nat, m as nat));
        }
        match cache.get(&tuple_key(r0 - 1, prev)) {
            Some(v) => *v,
            None => 0,
        }
    }
}

/// Fills the table for constant `r7` and modulus `m`: levels below `a` in
/// full, then level `a` up to residual `b`. Each level is filled by
/// increasing residual, so every entry needs only entries already present.
pub fn fill_6027(r7: u16, m: u32, a: u16, b: u16) -> (cache: HashMap<u32, u16>)
    requires
        0 < m <= U15_MOD,
        r7 < m,
        b < m,
    ensures
        filled_to(cache@, a as int, b as int, r7 as nat, m as nat),
{
    let mut cache: HashMap<u32, u16> = HashMap::new();
    let mut r0: u16 = 0;
    loop
        invariant
            0 < m <= U15_MOD,
            r7 < m,
            b < m,
            r0 <= a,
            filled_to(cache@, r0 - 1, m - 1, r7 as nat, m as nat),
        decreases a - r0,
    {
        let last: u32 = if r0 == a {
            b as u32
        } else {
            m - 1
        };
        let mut r1: u32 = 0;
        while r1 <= last
            invariant
                0 < m <= U15_MOD,
                r7 < m,
                b < m,
                r0 <= a,
                last < m,
                r1 <= last + 1,
                filled_to(cache@, r0 - 1, m - 1, r7 as nat, m as nat),
                forall|y: int| 0 <= y < r1 ==> #[trigger] holds(cache@, r0 as int, y, r7 as nat, m as nat),
            decreases last + 1 - r1,
        {
            proof {
                if r0 > 0 {
                    assert forall|y: int| 0 <= y < m implies #[trigger] holds(
                        cache@,
                        r0 - 1,
                        y,
                        r7 as nat,
                        m as nat,
                    ) by {
                        assert(holds(cache@, r0 - 1, y, r7 as nat, m as nat));
                    }
                }
                if r1 > 0 {
                    assert(holds(cache@, r0 as int, r1 - 1, r7 as nat, m as nat));
                }
            }
            let v = compute_6027(r0, r1 as u16, r7, m, &cache);
            let ghost before = cache@;
            cache.insert(tuple_key(r0, r1 as u16), v);
            proof {
                assert forall|x: int, y: int|
                    0 <= x && 0 <= y < m && (x < r0 - 1 || (x == r0 - 1 && y <= m - 1))
                    implies #[trigger] holds(cache@, x, y, r7 as nat, m as nat) by {
                    assert(holds(before, x, y, r7 as nat, m as nat));
                    if key_of(x, y) == key_of(r0 as int, r1 as int) {
                        lemma_key_injective(x, y, r0 as int, r1 as int);
                    }
                }
                assert forall|y: int| 0 <= y < r1 + 1 implies #[trigger] holds(cache@, r0 as int, y, r7 as nat, m as nat) by {
                    if y < r1 {
                        assert(holds(before, r0 as int, y, r7 as nat, m as nat));
                        if key_of(r0 as int, y) == key_of(r0 as int, r1 as int) {
                            lemma_key_injective(r0 as int, y, r0 as int, r1 as int);
                        }
                    }
                }
            }
            r1 = r1 + 1;
        }
        if r0 == a {
            assert forall|x: int, y: int|
                0 <= x && 0 <= y < m && (x < a || (x == a && y <= b))
                implies #[trigger] holds(cache@, x, y, r7 as nat, m as nat) by {
                if x < a {
                    assert(holds(cache@, x, y, r7 as nat, m as nat));
                } else {
                    assert(holds(cache@, r0 as int, y, r7 as nat, m as nat));
                }
            }
            return cache;
        }
        assert forall|x: int, y: int|
            0 <= x && 0 <= y < m && (x < r0 + 1 - 1 || (x == r0 + 1 - 1 && y <= m - 1))
            implies #[trigger] holds(cache@, x, y, r7 as nat, m as nat) by {
            if x < r0 {
                assert(holds(cache@, x, y, r7 as nat, m as nat));
            } else {
                assert(holds(cache@, r0 as int, y, r7 as nat, m as nat));
            }
        }
        r0 = r0 + 1;
    }
}

/// The routine's value at (a, b) for constant `r7` and modulus `m`, through
/// the table.
pub fn memo_6027(r7: u16, m: u32, a: u16, b: u16) -> (r: u16)
    requires
        0 < m <= U15_MOD,
        r7 < m,
        b < m,
    ensures
        r == check_6027(a as nat, b as nat, r7 as nat, m as nat),
{
    let cache = fill_6027(r7, m, a, b);
    assert(holds(cache@, a as int, b as int, r7 as nat, m as nat));
    match cache.get(&tuple_key(a, b)) {
        Some(v) => *v,
        None => 0,
    }
}

/// Whether `r7` makes the confirmation routine produce 6.
pub fn thread_6027_single(r7: u16) -> (r: bool)
    requires
        r7 < U15_MOD,
    ensures
        r == (check_6027(4, 1, r7 as nat, U15_MOD as nat) == TARGET_6027),
{
    memo_6027(r7, U15_MOD, 4, 1) == TARGET_6027
}

/// The smallest `k` in `lo..=hi` whose routine value at (a, b) modulo `m` is
/// `target`, if there is one.
pub fn find_6027(lo: u16, hi: u16, m: u32, a: u16, b: u16, target: u16) -> (r: Option<u16>)
    requires
        0 < m <= U15_MOD,
        hi < m,
        b < m,
    ensures
        r matches Some(k) ==> lo <= k <= hi && check_6027(a as nat, b as nat, k as nat, m as nat)
            == target,
        r matches Some(k) ==> forall|j: int|
            lo <= j < k ==> #[trigger] check_6027(a as nat, b as nat, j as nat, m as nat) != target,
        r is None ==> forall|j: int|
            lo <= j <= hi ==> #[trigger] check_6027(a as nat, b as nat, j as nat, m as nat) != target,
{
    if lo > hi {
        return None;
    }
    let mut k: u16 = lo;
    loop
        invariant
            0 < m <= U15_MOD,
            hi < m,
            b < m,
            lo <= k <= hi,
            forall|j: int|
                lo <= j < k ==> #[trigger] check_6027(a as nat, b as nat, j as nat, m as nat) != target,
        decreases hi - k,
    {
        if memo_6027(k, m, a, b) == target {
            return Some(k);
        }
        if k == hi {
            return None;
        }
        k = k + 1;
    }
}

/// The smallest `r7` in `lo..=hi` that makes the confirmation routine produce
/// 6; 0 when there is none (or when 0 itself is the smallest).
pub fn thread_6027(lo: u16, hi: u16) -> (r: u16)
    requires
        hi < U15_MOD,
    ensures
        r != 0 ==> lo <= r <= hi && check_6027(4, 1, r as nat, U15_MOD as nat) == TARGET_6027,
        r != 0 ==> forall|j: int|
            lo <= j < r ==> #[trigger] check_6027(4, 1, j as nat, U15_MOD as nat) != TARGET_6027,
        r == 0 ==> (lo == 0 && check_6027(4, 1, 0, U15_MOD as nat) == TARGET_6027) || forall|j: int|
            lo <= j <= hi ==> #[trigger] check_6027(4, 1, j as nat, U15_MOD as nat) != TARGET_6027,
{
    match find_6027(lo, hi, U15_MOD, 4, 1, TARGET_6027) {
        Some(k) => k,
        None => 0,
    }
}

/// The `i`-th range of `k` values of a batch that starts at `index`: `width`
/// apart, each ending `width` past its start or at 32767.
pub open spec fn batch_range(index: int, i: int, width: int) -> (int, int) {
    let lo = index + i * width;
    (lo, if lo + width > 32767 { 32767 } else { lo + width })
}

/// The ranges of one batch of the parallel search: up to `batch` of them,
/// starting at `index`, stopping early where the key space ends.
pub fn batch_ranges(index: u32, batch: u32, width: u32) -> (r: Vec<(u16, u16)>)
    requires
        index <= 32767,
        1 <= width <= 32768,
    ensures
        r.len() <= batch,
        forall|i: int|
            0 <= i < r.len() ==> (r[i].0 as int, r[i].1 as int) == batch_range(
                index as int,
                i,
                width as int,
            ),
        forall|i: int| 0 <= i < r.len() ==> #[trigger] r[i].0 <= 32767,
        r.len() < batch ==> index + r.len() * width > 32767,
{
    let mut r: Vec<(u16, u16)> = Vec::new();
    let mut lo: u32 = index;
    while r.len() < batch as usize && lo <= 32767
        invariant
            1 <= width <= 32768,
            r.len() <= batch,
            lo == index + r.len() * width,
            forall|i: int|
                0 <= i < r.len() ==> (r[i].0 as int, r[i].1 as int) == batch_range(
                    index as int,
                    i,
                    width as int,
                ),
            forall|i: int| 0 <= i < r.len() ==> #[trigger] r[i].0 <= 32767,
        decreases batch - r.len(),
    {
        let hi: u32 = if lo + width > 32767 {
            32767
        } else {
            lo + width
        };
        proof {
            assert(index + r.len() * width + width == index + (r.len() + 1) * width) by (nonlinear_arith);
        }
        r.push((lo as u16, hi as u16));
        lo = lo + width;
    }
    r
}

/// The mnemonic of an instruction; empty past the instruction set.
pub open spec fn mnemonic(op: u16) -> Seq<char> {
    if op == 0 {
        "HALT"@
    } else
    if op == 1 {
        "SET"@
    } else
    if op == 2 {
        "PUSH"@
    } else
    if op == 3 {
        "POP"@
    } else
    if op == 4 {
        "EQ"@
    } else
    if op == 5 {
        "GT"@
    } else
    if op == 6 {
        "JMP"@
    } else
    if op == 7 {
        "JT"@
    } else
    if op == 8 {
        "JF"@
    } else
    if op == 9 {
        "ADD"@
    } else
    if op == 10 {
        "MULT"@
    } else
    if op == 11 {
        "MOD"@
    } else
    if op == 12 {
        "AND"@
    } else
    if op == 13 {
        "OR"@
    } else
    if op == 14 {
        "NOT"@
    } else
    if op == 15 {
        "RMEM"@
    } else
    if op == 16 {
        "WMEM"@
    } else
    if op == 17 {
        "CALL"@
    } else
    if op == 18 {
        "RET"@
    } else
    if op == 19 {
        "OUT"@
    } else
    if op == 20 {
        "IN"@
    } else
    if op == 21 {
        "NOOP"@
    } else {
        Seq::empty()
    }
}

fn mnemonic_of(op: u16) -> (r: &'static str)
    requires
        op <= 21,
    ensures
        r@ == mnemonic(op),
{
    if op == 0 {
        "HALT"
    } else
    if op == 1 {
        "SET"
    } else
    if op == 2 {
        "PUSH"
    } else
    if op == 3 {
        "POP"
    } else
    if op == 4 {
        "EQ"
    } else
    if op == 5 {
        "GT"
    } else
    if op == 6 {
        "JMP"
    } else
    if op == 7 {
        "JT"
    } else
    if op == 8 {
        "JF"
    } else
    if op == 9 {
        "ADD"
    } else
    if op == 10 {
        "MULT"
    } else
    if op == 11 {
        "MOD"
    } else
    if op == 12 {
        "AND"
    } else
    if op == 13 {
        "OR"
    } else
    if op == 14 {
        "NOT"
    } else
    if op == 15 {
        "RMEM"
    } else
    if op == 16 {
        "WMEM"
    } else
    if op == 17 {
        "CALL"
    } else
    if op == 18 {
        "RET"
    } else
    if op == 19 {
        "OUT"
    } else
    if op == 20 {
        "IN"
    } else
    if op == 21 {
        "NOOP"
    } else {
        ""
    }
}

/// How many operand words an instruction has.
pub open spec fn arity(op: u16) -> nat {
    if op == 0 || op == 18 || op == 21 || op > 21 {
        0
    } else if op == 2 || op == 3 || op == 6 || op == 17 || op == 19 || op == 20 {
        1
    } else if op == 1 || op == 7 || op == 8 || op == 14 || op == 15 || op == 16 {
        2
    } else {
        3
    }
}

fn arity_of(op: u16) -> (r: usize)
    ensures
        r == arity(op),
{
    if op == 0 || op == 18 || op == 21 || op > 21 {
        0
    } else if op == 2 || op == 3 || op == 6 || op == 17 || op == 19 || op == 20 {
        1
    } else if op == 1 || op == 7 || op == 8 || op == 14 || op == 15 || op == 16 {
        2
    } else {
        3
    }
}

/// How an operand word reads in a listing: a literal in decimal, a register
/// as `reg` and its number, anything else flagged as invalid.
pub open spec fn operand_text(p: Seq<u16>, i: int) -> Seq<char> {
    if i >= p.len() {
        "Invalid index"@
    } else if p[i] <= 32767 {
        decimal(p[i] as nat)
    } else if p[i] <= 32775 {
        "reg"@ + decimal((p[i] - 32768) as nat)
    } else {
        "INVALID "@ + decimal(p[i] as nat)
    }
}

/// The first `k` operands of the instruction at `i`, each after a space.
pub open spec fn operands_text(p: Seq<u16>, i: int, k: nat) -> Seq<char>
    decreases k,
{
    if k == 0 {
        Seq::empty()
    } else {
        operands_text(p, i, (k - 1) as nat).push(' ') + operand_text(p, i + k)
    }
}

/// Tab characters that take a text of `len` columns to column `limit`, four
/// columns to a tab.
pub open spec fn tabs_needed(len: int, limit: int) -> nat
    decreases limit - len,
{
    if len >= limit {
        0
    } else if len + 4 >= limit {
        1
    } else {
        1 + tabs_needed(len + 4, limit)
    }
}

/// `input`, then `append` at tab stop `tab_pos`; a text already past that
/// stop gets one tab.
pub open spec fn with_tabs(input: Seq<char>, tab_pos: nat, append: Seq<char>) -> Seq<char> {
    if 4 * tab_pos < input.len() {
        input.push('\t') + append
    } else {
        input + Seq::new(tabs_needed(input.len() as int, (4 * tab_pos) as int), |j: int| '\t') + append
    }
}

fn append_with_tabs(input: Vec<char>, tab_pos: usize, append: Vec<char>) -> (r: Vec<char>)
    requires
        tab_pos <= 1000,
    ensures
        r@ == with_tabs(input@, tab_pos as nat, append@),
{
    let tab_len: usize = 4;
    let mut result = input;
    if tab_len * tab_pos < result.len() {
        result.push('\t');
        extend(&mut result, &append);
        return result;
    }
    let mut pos = result.len();
    let ghost n: int = 0;
    while pos < tab_pos * tab_len
        invariant
            tab_pos <= 1000,
            tab_len == 4,
            pos == input@.len() + 4 * n,
            n >= 0,
            result@ == input@ + Seq::new(n as nat, |j: int| '\t'),
            tabs_needed(input@.len() as int, (4 * tab_pos) as int) == n + tabs_needed(pos as int, (4 * tab_pos) as int),
        decreases tab_pos * tab_len + 4 - pos,
    {
        result.push('\t');
        pos = pos + tab_len;
        proof {
            n = n + 1;
            assert(result@ =~= input@ + Seq::new(n as nat, |j: int| '\t'));
        }
    }
    extend(&mut result, &append);
    result
}

/// How the operand word at index `index` reads in a listing.
fn decompiler_val(program: &Vec<u16>, index: usize) -> (r: Vec<char>)
    ensures
        r@ == operand_text(program@, index as int),
{
    if index >= program.len() {
        return chars_of("Invalid index");
    }
    let val = program[index];
    if val <= 32767 {
        decimal_of(val as u64)
    } else if val <= 32775 {
        let mut r = chars_of("reg");
        extend(&mut r, &decimal_of((val - 32768) as u64));
        r
    } else {
        let mut r = chars_of("INVALID ");
        extend(&mut r, &decimal_of(val as u64));
        r
    }
}

/// How many words the instruction with opcode `op` takes; a word outside the
/// instruction set takes one.
pub open spec fn width(op: u16) -> nat {
    arity(op) + 1
}

/// The listing line of the instruction at `i`, tagged with its address.
pub open spec fn listing_line(p: Seq<u16>, i: int) -> Seq<char> {
    let op = p[i];
    let tag = seq!['#'] + decimal(i as nat);
    if op > 21 {
        with_tabs("DATA? "@ + decimal(op as nat), 6, tag)
    } else {
        let base = mnemonic(op) + operands_text(p, i, arity(op));
        if op == 19 && i + 1 < p.len() && p[i + 1] <= 255 {
            if p[i + 1] == 10 {
                with_tabs(base + seq!['\t', '(', 'L', 'F', ')'], 5, tag)
            } else {
                with_tabs(base + seq!['\t', '(', (p[i + 1] as u8) as char, ')'], 6, tag)
            }
        } else {
            with_tabs(base, 6, tag)
        }
    }
}

/// The listing of a program from index `i` on: one line per instruction.
pub open spec fn listing(p: Seq<u16>, i: int) -> Seq<Seq<char>>
    decreases p.len() - i,
{
    if i < 0 || i >= p.len() {
        Seq::empty()
    } else if i + width(p[i]) >= p.len() {
        seq![listing_line(p, i)]
    } else {
        seq![listing_line(p, i)] + listing(p, i + width(p[i]))
    }
}

/// The mnemonic of the instruction at `index` and its operands.
fn instruction_text(program: &Vec<u16>, index: usize) -> (r: Vec<char>)
    requires
        index < program.len(),
        program.len() < usize::MAX - 4,
        program[index as int] <= 21,
    ensures
        r@ == mnemonic(program[index as int]) + operands_text(
            program@,
            index as int,
            arity(program[index as int]),
        ),
{
    let op = program[index];
    let mut line = chars_of(mnemonic_of(op));
    let n = arity_of(op);
    let mut k: usize = 1;
    while k <= n
        invariant
            n == arity(op),
            n <= 3,
            1 <= k <= n + 1,
            index < program.len(),
            program.len() < usize::MAX - 4,
            line@ == mnemonic(op) + operands_text(program@, index as int, (k - 1) as nat),
        decreases n + 1 - k,
    {
        line.push(' ');
        extend(&mut line, &decompiler_val(program, index + k));
        assert(line@ =~= mnemonic(op) + operands_text(program@, index as int, k as nat));
        k = k + 1;
    }
    line
}

#[verifier::rlimit(40)]
fn listing_line_of(program: &Vec<u16>, index: usize) -> (r: Vec<char>)
    requires
        index < program.len(),
        program.len() < usize::MAX - 4,
    ensures
        r@ == listing_line(program@, index as int),
{
    let op = program[index];
    let mut tag: Vec<char> = vec!['#'];
    extend(&mut tag, &decimal_of(index as u64));
    if op > 21 {
        let mut line = chars_of("DATA? ");
        extend(&mut line, &decimal_of(op as u64));
        return append_with_tabs(line, 6, tag);
    }
    let mut line = instruction_text(program, index);
    if op == 19 && index + 1 < program.len() && program[index + 1] <= 255 {
        let val = program[index + 1];
        if val == 10 {
            line.push('\t');
            line.push('(');
            line.push('L');
            line.push('F');
            line.push(')');
            append_with_tabs(line, 5, tag)
        } else {
            line.push('\t');
            line.push('(');
            line.push((val as u8) as char);
            line.push(')');
            append_with_tabs(line, 6, tag)
        }
    } else {
        append_with_tabs(line, 6, tag)
    }
}

/// A listing of a program: one line per instruction, each a mnemonic and its
/// operands, tagged with the instruction's address. A word outside the
/// instruction set is listed as data and the listing goes on at the next word.
pub fn decompile(program: &Vec<u16>) -> (lines: Vec<String>)
    requires
        program.len() < usize::MAX - 4,
    ensures
        lines@.map_values(|s: String| s@) == listing(program@, 0),
{
    let mut index: usize = 0;
    let mut lines: Vec<String> = Vec::new();
    while index < program.len()
        invariant
            program.len() < usize::MAX - 4,
            lines@.map_values(|s: String| s@) + listing(program@, index as int) == listing(program@, 0),
        decreases program.len() + 4 - index,
    {
        let line = listing_line_of(program, index);
        let w = arity_of(program[index]) + 1;
        let ghost before = lines@.map_values(|s: String| s@);
        lines.push(string_of(&line));
        assert(lines@.map_values(|s: String| s@) =~= before.push(line@));
        assert(before.push(line@) + listing(program@, (index + w) as int) =~= before + listing(program@, index as int));
        index = index + w;
    }
    assert(listing(program@, index as int) =~= Seq::<Seq<char>>::empty());
    assert(lines@.map_values(|s: String| s@) + Seq::<Seq<char>>::empty() =~= lines@.map_values(|s: String| s@));
    lines
}

/// The decision after a batch of the parallel search: `count` ranges `width`
/// apart started at `index`, and `found` is what the shared result slot holds
/// (0 while empty). The search stops once a value is found, a batch was empty,
/// or the key space is used up; otherwise the next batch starts after the
/// last range.
pub fn next_batch(index: u32, count: u32, width: u32, found: u16) -> (r: Option<u32>)
    requires
        index <= 32767,
        width <= 32768,
        count <= 32768,
    ensures
        found != 0 || count == 0 ==> r is None,
        found == 0 && count > 0 ==> (r matches Some(next) ==> next == index + count * width
            && next <= 32767),
        found == 0 && count > 0 ==> (r is None <==> index + count * width > 32767),
{
    if found != 0 || count == 0 {
        return None;
    }
    proof {
        assert(count * width <= 32768 * 32768) by (nonlinear_arith)
            requires
                count <= 32768,
                width <= 32768,
        ;
    }
    let next: u64 = index as u64 + count as u64 * width as u64;
    if next > 32767 {
        None
    } else {
        Some(next as u32)
    }
}

/// Where the teleporter's confirmation check starts, and where the program
/// goes on once it has passed.
pub const CHECK_ADDR: u16 = 5489;
pub const AFTER_CHECK_ADDR: u16 = 5491;

/// The teleporter used with register 7 set to `r7`, the slow confirmation
/// routine skipped by writing the answer it gives for the right `r7` into
/// registers 0 and 1, then a run.
pub open spec fn bypass_spec(s: VmState, r7: u16) -> VmState {
    let t = VmState { output: Seq::empty(), ..s.set_reg_at(7, r7) }.prime("use teleporter"@).run_until(
        CHECK_ADDR,
        RUN_LIMIT as nat,
    );
    if t.pc == CHECK_ADDR {
        VmState {
            output: Seq::empty(),
            ..t.set_reg_at(0, 6).set_reg_at(1, 5).jump(AFTER_CHECK_ADDR as int)
        }.run_for(RUN_LIMIT as nat)
    } else {
        VmState { output: Seq::empty(), ..t }.run_for(RUN_LIMIT as nat)
    }
}

/// Activates the teleporter with register 7 set to `r7`, skipping the
/// confirmation routine once the program reaches it; says whether it did.
pub fn bypass_confirmation(vm: &mut SynacorVM, r7: u16) -> (r: bool)
    requires
        old(vm).wf(),
    ensures
        final(vm).wf(),
        final(vm)@ == bypass_spec(old(vm)@, r7),
        r == (VmState { output: Seq::empty(), ..old(vm)@.set_reg_at(7, r7) }.prime(
            "use teleporter"@,
        ).run_until(CHECK_ADDR, RUN_LIMIT as nat).pc == CHECK_ADDR),
{
    vm.set_register(7, r7);
    let _ = vm.output_line(true);
    vm.set_input_line("use teleporter");
    let reached = vm.run_until(CHECK_ADDR, RUN_LIMIT);
    if reached {
        vm.set_register(0, 6);
        vm.set_register(1, 5);
        vm.set_mem_ptr(AFTER_CHECK_ADDR);
    }
    let _ = vm.output_line(true);
    vm.execute();
    reached
}

} // verus!
