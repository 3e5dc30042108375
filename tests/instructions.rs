use evobots::instr::{processor, random_instruction, Ins, INSTRUCTION_COUNT};
use evobots::rank::{Rank, RankSelector};
use evobots::arith::{half, sat_add, sat_mul, sat_sub};
use rand::SeedableRng;

#[test]
fn division_by_zero_gives_zero() {
    for a in [0i64, 1, -1, 10, i64::MAX, i64::MIN] {
        assert_eq!(processor(&Ins::Div, a, 0), 0);
        assert_eq!(processor(&Ins::Mod, a, 0), 0);
    }
}

#[test]
fn division_truncates() {
    assert_eq!(processor(&Ins::Div, 10, 3), 3);
    assert_eq!(processor(&Ins::Div, -10, 3), -3);
    assert_eq!(processor(&Ins::Div, 10, -3), -3);
    assert_eq!(processor(&Ins::Div, i64::MIN, -1), 0);
}

#[test]
fn remainder_follows_dividend() {
    assert_eq!(processor(&Ins::Mod, 10, 3), 1);
    assert_eq!(processor(&Ins::Mod, -10, 3), -1);
    assert_eq!(processor(&Ins::Mod, 10, -3), 1);
    assert_eq!(processor(&Ins::Mod, i64::MIN, -1), 0);
}

#[test]
fn comparisons_give_one_or_zero() {
    assert_eq!(processor(&Ins::Grt, 5, 3), 1);
    assert_eq!(processor(&Ins::Grt, 3, 5), 0);
    assert_eq!(processor(&Ins::Les, 3, 5), 1);
    assert_eq!(processor(&Ins::Eql, 4, 4), 1);
    assert_eq!(processor(&Ins::Neq, 4, 4), 0);
    assert_eq!(processor(&Ins::Neq, 4, 5), 1);
    assert_eq!(processor(&Ins::And, 2, 0), 0);
    assert_eq!(processor(&Ins::And, 2, -7), 1);
    assert_eq!(processor(&Ins::Or, 0, 0), 0);
    assert_eq!(processor(&Ins::Or, 0, 9), 1);
}

#[test]
fn arithmetic_wraps() {
    assert_eq!(processor(&Ins::Add, i64::MAX, 1), i64::MIN);
    assert_eq!(processor(&Ins::Sub, i64::MIN, 1), i64::MAX);
    assert_eq!(processor(&Ins::Mul, 6, 7), 42);
    assert_eq!(processor(&Ins::Mul, i64::MAX, 2), -2);
    assert_eq!(processor(&Ins::Nop, 17, 3), 17);
}

#[test]
fn opcode_indices_cover_the_alphabet() {
    assert_eq!(Ins::from_index(0), Ins::Nop);
    assert_eq!(Ins::from_index(4), Ins::Div);
    assert_eq!(Ins::from_index(15), Ins::Sqt);
    assert!(Ins::from_index(13).is_float());
    assert!(!Ins::from_index(9).is_float());
    let mut rng = rand::Isaac64Rng::from_seed(&[1u64, 2, 3, 4][..]);
    let mut seen = vec![false; INSTRUCTION_COUNT as usize];
    for _ in 0..2000 {
        let ins = random_instruction(&mut rng);
        let k = (0..INSTRUCTION_COUNT).find(|&k| Ins::from_index(k) == ins).unwrap();
        seen[k as usize] = true;
    }
    assert!(seen.iter().all(|&s| s));
}

#[test]
fn saturating_helpers() {
    assert_eq!(sat_add(i64::MAX, 5), i64::MAX);
    assert_eq!(sat_sub(i64::MIN, 5), i64::MIN);
    assert_eq!(sat_sub(10, 15), -5);
    assert_eq!(sat_mul(i64::MAX, -2), i64::MIN);
    assert_eq!(half(7), 3);
    assert_eq!(half(-7), -3);
    assert_eq!(half(i64::MIN), i64::MIN / 2);
}

#[test]
fn selector_keeps_the_highest_scores() {
    let mut sel: RankSelector<i64> = RankSelector::new(3, -1);
    assert_eq!(sel.entries().len(), 3);
    assert!(sel.entries().iter().all(|r| r.rank == 0 && r.data == -1));
    for (score, tag) in [(5, 1), (-2, 2), (9, 3), (1, 4), (7, 5)] {
        sel.insert(Rank { rank: score, data: tag });
    }
    let kept: Vec<(i64, i64)> = sel.entries().iter().map(|r| (r.rank, r.data)).collect();
    assert_eq!(kept, vec![(5, 1), (9, 3), (7, 5)]);
}

#[test]
fn selector_ties_keep_the_earlier_entry() {
    let mut sel: RankSelector<i64> = RankSelector::new(2, -1);
    sel.insert(Rank { rank: 4, data: 1 });
    sel.insert(Rank { rank: 4, data: 2 });
    sel.insert(Rank { rank: 4, data: 3 });
    let kept: Vec<i64> = sel.entries().iter().map(|r| r.data).collect();
    assert_eq!(kept, vec![1, 2]);
    sel.insert(Rank { rank: 0, data: 9 });
    let kept: Vec<i64> = sel.entries().iter().map(|r| r.data).collect();
    assert_eq!(kept, vec![1, 2]);
}

#[test]
fn empty_selector_stays_empty() {
    let mut sel: RankSelector<i64> = RankSelector::new(0, -1);
    sel.insert(Rank { rank: 100, data: 1 });
    assert!(sel.entries().is_empty());
}
