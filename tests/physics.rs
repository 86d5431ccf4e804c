use synacor::interdimensional_physics::{
    batch_ranges, compute_6027, next_batch, decompile, fill_6027, find_6027, memo_6027, thread_6027,
    thread_6027_single, tuple_key,
};

fn direct(a: u32, b: u32, k: u32, m: u32) -> u32 {
    if a == 0 {
        (b + 1) % m
    } else if b == 0 {
        direct(a - 1, k, k, m)
    } else {
        direct(a - 1, direct(a, b - 1, k, m), k, m)
    }
}

#[test]
fn memo_matches_direct_recursion_modulo_eight() {
    for k in 0..8u16 {
        for a in 0..4u16 {
            for b in 0..8u16 {
                assert_eq!(
                    memo_6027(k, 8, a, b) as u32,
                    direct(a as u32, b as u32, k as u32, 8),
                    "a={} b={} k={}",
                    a,
                    b,
                    k
                );
            }
        }
        assert_eq!(memo_6027(k, 8, 4, 1) as u32, direct(4, 1, k as u32, 8));
    }
}

#[test]
fn search_finds_smallest_constant_modulo_eight() {
    let expected = (0..8u32).find(|&k| direct(3, 1, k, 8) == 5);
    assert_eq!(find_6027(0, 7, 8, 3, 1, 5), expected.map(|k| k as u16));
    let none = (0..8u32).find(|&k| direct(2, 2, k, 8) == 99);
    assert_eq!(none, None);
    assert_eq!(find_6027(0, 7, 8, 2, 2, 99), None);
}

#[test]
fn level_zero_adds_one() {
    let cache = fill_6027(3, 32768, 0, 32767);
    assert_eq!(cache[&tuple_key(0, 32767)], 0);
    assert_eq!(compute_6027(0, 41, 3, 32768, &cache), 42);
    assert_eq!(compute_6027(1, 0, 3, 32768, &fill_6027(3, 32768, 1, 0)), 4);
}

#[test]
fn tuple_key_packs_level_and_residual() {
    assert_eq!(tuple_key(0, 5), 5);
    assert_eq!(tuple_key(4, 1), 4 * 32768 + 1);
}

#[test]
fn single_check_agrees_with_memo() {
    assert_eq!(thread_6027_single(1), memo_6027(1, 32768, 4, 1) == 6);
}

#[test]
fn range_search_of_one_value() {
    let r = thread_6027(2, 2);
    assert!(r == 0 || r == 2);
    assert_eq!(r == 2, thread_6027_single(2));
}

#[test]
fn batches_cover_the_key_space() {
    let b = batch_ranges(1, 8, 20);
    assert_eq!(b.len(), 8);
    assert_eq!(b[0], (1, 21));
    assert_eq!(b[7], (141, 161));
    let last = batch_ranges(32761, 8, 20);
    assert_eq!(last, vec![(32761, 32767)]);
}

#[test]
fn listing_of_each_kind_of_word() {
    assert_eq!(decompile(&vec![0]), vec!["HALT\t\t\t\t\t#0".to_string()]);
    assert_eq!(decompile(&vec![1, 32768, 5]), vec!["SET reg0 5\t\t\t\t#0".to_string()]);
    assert_eq!(decompile(&vec![19, 65]), vec!["OUT 65\t(A)\t\t\t\t#0".to_string()]);
    assert_eq!(decompile(&vec![19, 10]), vec!["OUT 10\t(LF)\t\t\t#0".to_string()]);
    assert_eq!(decompile(&vec![30000]), vec!["DATA? 30000\t\t\t\t#0".to_string()]);
    assert_eq!(decompile(&vec![2, 40000]), vec!["PUSH INVALID 40000\t\t#0".to_string()]);
    assert_eq!(decompile(&vec![2]), vec!["PUSH Invalid index\t\t#0".to_string()]);
    assert_eq!(
        decompile(&vec![16, 40000, 50000]),
        vec!["WMEM INVALID 40000 INVALID 50000\t#0".to_string()]
    );
}

#[test]
fn listing_follows_instruction_widths() {
    assert_eq!(
        decompile(&vec![21, 9, 32768, 32769, 7, 0]),
        vec![
            "NOOP\t\t\t\t\t#0".to_string(),
            "ADD reg0 reg1 7\t\t\t#1".to_string(),
            "HALT\t\t\t\t\t#5".to_string(),
        ]
    );
    assert!(decompile(&vec![]).is_empty());
}

#[test]
fn batches_stop_when_found_or_exhausted() {
    assert_eq!(next_batch(1, 8, 20, 0), Some(161));
    assert_eq!(next_batch(1, 8, 20, 25734), None);
    assert_eq!(next_batch(32761, 1, 20, 0), None);
    assert_eq!(next_batch(5, 0, 20, 0), None);
}
