use solana_savings_circle::{
    check_contributor, close_circle, contribute_at_slot, create_circle, join_circle, mask_to_indices, CircleError,
    Contribution, Key, Payout, SavingsCircle, MAX_MEMBERS,
};

fn key(b: u8) -> Key {
    Key::from_bytes([b; 32])
}

fn accounts(n: u8) -> Vec<Key> {
    (0..n).map(|i| key(100 + i)).collect()
}

fn full_circle(n: u8, amount: u64) -> SavingsCircle {
    let mut c = create_circle(key(1), 42, key(9), amount, n, 254).unwrap();
    for i in 0..n {
        join_circle(&mut c, key(10 + i)).unwrap();
    }
    c
}

#[test]
fn create_circle_sets_initial_state() {
    let c = create_circle(key(1), 42, key(9), 1_000, 3, 254).unwrap();
    assert_eq!(c.creator, key(1));
    assert_eq!(c.circle_id, 42);
    assert_eq!(c.mint, key(9));
    assert_eq!(c.contribution_amount, 1_000);
    assert_eq!(c.member_count, 3);
    assert_eq!(c.joined_count, 0);
    assert_eq!(c.members, [Key::zero(); 10]);
    assert_eq!(c.current_round, 0);
    assert_eq!(c.contributed_mask, 0);
    assert_eq!(c.paid_out_mask, 0);
    assert!(!c.started);
    assert_eq!(c.bump, 254);
    assert!(c.is_well_formed());
}

#[test]
fn create_circle_rejects_bad_terms() {
    assert_eq!(create_circle(key(1), 1, key(9), 10, 1, 0).unwrap_err(), CircleError::InvalidMemberCount);
    assert_eq!(create_circle(key(1), 1, key(9), 10, 0, 0).unwrap_err(), CircleError::InvalidMemberCount);
    assert_eq!(
        create_circle(key(1), 1, key(9), 10, MAX_MEMBERS + 1, 0).unwrap_err(),
        CircleError::InvalidMemberCount
    );
    assert_eq!(create_circle(key(1), 1, key(9), 0, 3, 0).unwrap_err(), CircleError::InvalidMemberCount);
    assert!(create_circle(key(1), 1, key(9), 1, 2, 0).is_ok());
    assert!(create_circle(key(1), 1, key(9), 1, MAX_MEMBERS, 0).is_ok());
}

#[test]
fn join_fills_seats_and_starts_when_full() {
    let mut c = create_circle(key(1), 42, key(9), 5, 3, 0).unwrap();
    join_circle(&mut c, key(10)).unwrap();
    assert_eq!(c.joined_count, 1);
    assert_eq!(c.members[0], key(10));
    assert!(!c.started);
    assert_eq!(c.current_round, 0);
    join_circle(&mut c, key(11)).unwrap();
    assert!(!c.started);
    join_circle(&mut c, key(12)).unwrap();
    assert_eq!(c.joined_count, 3);
    assert_eq!(c.members[2], key(12));
    assert!(c.started);
    assert_eq!(c.current_round, 1);
    assert_eq!(c.members[3], Key::zero());
    assert!(c.is_well_formed());
}

#[test]
fn join_refuses_duplicates_and_full_circles() {
    let mut c = create_circle(key(1), 42, key(9), 5, 2, 0).unwrap();
    join_circle(&mut c, key(10)).unwrap();
    let before = c;
    assert_eq!(join_circle(&mut c, key(10)), Err(CircleError::AlreadyMemberError));
    assert_eq!(c.joined_count, before.joined_count);
    assert_eq!(c.members, before.members);
    join_circle(&mut c, key(11)).unwrap();
    assert_eq!(join_circle(&mut c, key(12)), Err(CircleError::CircleFullError));
    assert_eq!(c.joined_count, 2);
}

#[test]
fn contribute_refuses_before_start() {
    let mut c = create_circle(key(1), 42, key(9), 5, 2, 0).unwrap();
    join_circle(&mut c, key(10)).unwrap();
    let acc = accounts(2);
    assert_eq!(
        contribute_at_slot(&mut c, key(10), &acc, &acc, 0),
        Err(CircleError::CircleNotStartedError)
    );
}

#[test]
fn contribute_refuses_strangers_repeat_payers_and_wrong_accounts() {
    let mut c = full_circle(3, 5);
    let acc = accounts(3);
    assert_eq!(contribute_at_slot(&mut c, key(99), &acc, &acc, 0), Err(CircleError::NotAMemberError));
    let short = accounts(2);
    assert_eq!(
        contribute_at_slot(&mut c, key(10), &short, &acc, 0),
        Err(CircleError::InvalidMemberTokenAccount)
    );
    let mut wrong = accounts(3);
    wrong[1] = key(200);
    assert_eq!(
        contribute_at_slot(&mut c, key(10), &wrong, &acc, 0),
        Err(CircleError::InvalidMemberTokenAccount)
    );
    assert_eq!(c.contributed_mask, 0);
    let out = contribute_at_slot(&mut c, key(10), &acc, &acc, 0).unwrap();
    assert_eq!(out, Contribution { deposit: 5, payout: None });
    assert_eq!(c.contributed_mask, 0b001);
    assert_eq!(
        contribute_at_slot(&mut c, key(10), &acc, &acc, 0),
        Err(CircleError::AlreadyContributedError)
    );
    assert_eq!(c.contributed_mask, 0b001);
}

#[test]
fn last_payment_settles_round_with_winner_at_slot() {
    let mut c = full_circle(3, 5);
    let acc = accounts(3);
    contribute_at_slot(&mut c, key(12), &acc, &acc, 7).unwrap();
    contribute_at_slot(&mut c, key(10), &acc, &acc, 7).unwrap();
    assert_eq!(c.contributed_mask, 0b101);
    let out = contribute_at_slot(&mut c, key(11), &acc, &acc, 7).unwrap();
    // candidates [0, 1, 2]; 7 % 3 == 1
    assert_eq!(out, Contribution { deposit: 5, payout: Some(Payout { winner_index: 1, amount: 15 }) });
    assert_eq!(c.paid_out_mask, 0b010);
    assert_eq!(c.contributed_mask, 0);
    assert_eq!(c.current_round, 2);
    assert!(c.is_well_formed());
}

#[test]
fn full_cycle_pays_everyone_once_then_closes() {
    let mut c = full_circle(3, 5);
    let acc = accounts(3);
    let mut winners = Vec::new();
    let mut deposited = 0u64;
    let mut paid_out = 0u64;
    let mut calls = 0;
    for round in 1..=3u8 {
        assert_eq!(c.current_round, round);
        assert_eq!(close_circle(&c, key(1)), Err(CircleError::CircleNotComplete));
        for m in 0..3u8 {
            let out = contribute_at_slot(&mut c, key(10 + m), &acc, &acc, 4).unwrap();
            calls += 1;
            deposited += out.deposit;
            if let Some(p) = out.payout {
                paid_out += p.amount;
                assert_eq!(m, 2);
                assert_eq!(p.amount, 15);
                winners.push(p.winner_index);
            }
        }
    }
    // slot 4: round 1 picks 4 % 3 = 1 of [0,1,2]; round 2 picks 4 % 2 = 0 of [0,2];
    // round 3 picks the remaining seat 2.
    assert_eq!(winners, vec![1, 0, 2]);
    assert_eq!(calls, 9);
    assert_eq!(deposited, 45);
    assert_eq!(paid_out, deposited);
    assert_eq!(c.paid_out_mask, 0b111);
    assert_eq!(c.current_round, 4);
    assert!(c.is_well_formed());
    assert_eq!(
        contribute_at_slot(&mut c, key(10), &acc, &acc, 4),
        Err(CircleError::CircleNotStartedError)
    );
    assert_eq!(close_circle(&c, key(10)), Err(CircleError::NotAMemberError));
    assert_eq!(close_circle(&c, key(1)), Ok(()));
}

#[test]
fn pot_overflow_refuses_settling_and_keeps_state() {
    let mut c = full_circle(2, u64::MAX / 2 + 1);
    let acc = accounts(2);
    contribute_at_slot(&mut c, key(10), &acc, &acc, 0).unwrap();
    let before = c;
    assert_eq!(
        contribute_at_slot(&mut c, key(11), &acc, &acc, 0),
        Err(CircleError::InvalidMemberCount)
    );
    assert_eq!(c.contributed_mask, before.contributed_mask);
    assert_eq!(c.current_round, before.current_round);
    assert_eq!(c.paid_out_mask, before.paid_out_mask);
}

#[test]
fn pot_at_the_limit_is_paid() {
    let mut c = full_circle(2, u64::MAX / 2);
    let acc = accounts(2);
    contribute_at_slot(&mut c, key(10), &acc, &acc, 0).unwrap();
    let out = contribute_at_slot(&mut c, key(11), &acc, &acc, 0).unwrap();
    assert_eq!(out.payout, Some(Payout { winner_index: 0, amount: u64::MAX - 1 }));
}

#[test]
fn mask_to_indices_lists_set_bits_in_order() {
    assert_eq!(mask_to_indices(0b1011, 4), vec![0, 1, 3]);
    assert_eq!(mask_to_indices(0b1011, 2), vec![0, 1]);
    assert_eq!(mask_to_indices(0, 10), Vec::<u8>::new());
    assert_eq!(mask_to_indices(0xffff, 0), Vec::<u8>::new());
    assert_eq!(mask_to_indices(0x8001, 16), vec![0, 15]);
}

#[test]
fn well_formedness_check_rejects_corrupt_state() {
    let c = full_circle(3, 5);
    assert!(c.is_well_formed());
    let mut dup = c;
    dup.members[2] = dup.members[0];
    assert!(!dup.is_well_formed());
    let mut bad_mask = c;
    bad_mask.contributed_mask = 0b1000;
    assert!(!bad_mask.is_well_formed());
    let mut bad_count = c;
    bad_count.member_count = 11;
    assert!(!bad_count.is_well_formed());
    let mut bad_round = c;
    bad_round.paid_out_mask = 0b001;
    assert!(!bad_round.is_well_formed());
    let mut stray = create_circle(key(1), 1, key(9), 5, 3, 0).unwrap();
    stray.members[5] = key(3);
    assert!(!stray.is_well_formed());
}

#[test]
fn error_messages() {
    assert_eq!(CircleError::CircleFullError.message(), "Circle is already full or has already started");
    assert_eq!(CircleError::NotAMemberError.message(), "Signer is not a member of this circle");
    assert_eq!(CircleError::CircleNotComplete.message(), "Circle has not completed all rounds yet");
}

#[test]
fn account_space() {
    assert_eq!(SavingsCircle::MAX_SIZE, 417);
}

#[test]
fn check_contributor_gives_the_seat() {
    let mut c = full_circle(3, 5);
    assert_eq!(check_contributor(&c, &key(12), 3), Ok(2));
    assert_eq!(check_contributor(&c, &key(12), 2), Err(CircleError::InvalidMemberTokenAccount));
    assert_eq!(check_contributor(&c, &key(50), 3), Err(CircleError::NotAMemberError));
    let acc = accounts(3);
    contribute_at_slot(&mut c, key(12), &acc, &acc, 0).unwrap();
    assert_eq!(check_contributor(&c, &key(12), 3), Err(CircleError::AlreadyContributedError));
    let open = create_circle(key(1), 1, key(9), 5, 3, 0).unwrap();
    assert_eq!(check_contributor(&open, &key(10), 3), Err(CircleError::CircleNotStartedError));
}

#[test]
fn mask_indices_rebuild_the_mask() {
    for &(mask, count) in &[(0b1011u16, 4u8), (0b1011, 2), (0xffff, 16), (0x8421, 10), (0, 7)] {
        let idx = mask_to_indices(mask, count);
        let rebuilt = idx.iter().fold(0u32, |a, &i| a | (1u32 << i));
        let below = (mask as u32) & ((1u32 << count) - 1);
        assert_eq!(rebuilt, below);
        assert_eq!(idx.len(), below.count_ones() as usize);
    }
}
