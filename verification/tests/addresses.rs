use std::str::FromStr;

use anchor_lang::prelude::{ProgramError, Pubkey};
use anchor_spl::associated_token::get_associated_token_address;
use solana_savings_circle::{
    associated_token_account, circle_pda, contribute, create_circle, join_circle,
    member_token_accounts, program_id, vault_pda, CircleError, ContributeError, Contribution, Key,
};

fn key(b: u8) -> Key {
    Key::from_bytes([b; 32])
}

fn pk(k: &Key) -> Pubkey {
    Pubkey::new_from_array(k.bytes)
}

#[test]
fn program_id_matches_declared_address() {
    let declared = Pubkey::from_str("3vkUrEeswVjU2coEngV1fwdVFTnZuUo7QeZxSzBNdmhs").unwrap();
    assert_eq!(program_id().bytes, declared.to_bytes());
}

#[test]
fn circle_and_vault_addresses_match_program_derivation() {
    let creator = key(7);
    let id = 0x0102_0304_0506_0708u64;
    let expected = Pubkey::find_program_address(
        &[b"circle", pk(&creator).as_ref(), &id.to_le_bytes()],
        &pk(&program_id()),
    )
    .0;
    let circle = circle_pda(&creator, id).unwrap();
    assert_eq!(circle.bytes, expected.to_bytes());
    assert_ne!(circle, creator);

    let vault = vault_pda(&circle).unwrap();
    let expected_vault =
        Pubkey::find_program_address(&[b"vault", expected.as_ref()], &pk(&program_id())).0;
    assert_eq!(vault.bytes, expected_vault.to_bytes());
    assert_ne!(vault, circle);
}

#[test]
fn member_token_accounts_are_associated_token_addresses() {
    let mut c = create_circle(key(1), 3, key(9), 5, 2, 0).unwrap();
    join_circle(&mut c, key(10)).unwrap();
    join_circle(&mut c, key(11)).unwrap();
    let accs = member_token_accounts(&c).unwrap();
    assert_eq!(accs.len(), 2);
    for (i, m) in [key(10), key(11)].iter().enumerate() {
        let ata = get_associated_token_address(&pk(m), &pk(&key(9)));
        assert_eq!(accs[i].bytes, ata.to_bytes());
        assert_ne!(accs[i], *m);
    }
}

#[test]
fn contribute_checks_associated_token_accounts() {
    let mut c = create_circle(key(1), 3, key(9), 5, 2, 0).unwrap();
    join_circle(&mut c, key(10)).unwrap();
    join_circle(&mut c, key(11)).unwrap();
    let plain = vec![key(10), key(11)];
    assert_eq!(
        contribute(&mut c, key(10), &plain),
        Err(ContributeError::Circle(CircleError::InvalidMemberTokenAccount))
    );
    let accs = member_token_accounts(&c).unwrap();
    assert_eq!(contribute(&mut c, key(10), &accs), Ok(Contribution { deposit: 5, payout: None }));
    assert_eq!(c.contributed_mask, 0b01);
}

#[test]
fn settling_off_chain_reports_missing_clock_and_keeps_state() {
    let mut c = create_circle(key(1), 3, key(9), 5, 2, 0).unwrap();
    join_circle(&mut c, key(10)).unwrap();
    join_circle(&mut c, key(11)).unwrap();
    let accs = member_token_accounts(&c).unwrap();
    contribute(&mut c, key(10), &accs).unwrap();
    let before = c;
    assert_eq!(
        contribute(&mut c, key(11), &accs),
        Err(ContributeError::Clock(ProgramError::UnsupportedSysvar))
    );
    assert_eq!(c, before);
}

#[test]
fn associated_token_account_matches_spl_derivation() {
    let wallet = key(21);
    let mint = key(22);
    let ata = associated_token_account(&wallet, &mint).unwrap();
    let expected = get_associated_token_address(&pk(&wallet), &pk(&mint));
    assert_eq!(ata.bytes, expected.to_bytes());
    assert_ne!(ata, wallet);
    assert_ne!(ata, mint);
}

#[test]
fn contribute_checks_before_deriving_accounts() {
    let mut c = create_circle(key(1), 3, key(9), 5, 2, 0).unwrap();
    join_circle(&mut c, key(10)).unwrap();
    join_circle(&mut c, key(11)).unwrap();
    let accs = member_token_accounts(&c).unwrap();
    assert_eq!(
        contribute(&mut c, key(99), &accs),
        Err(ContributeError::Circle(CircleError::NotAMemberError))
    );
    assert_eq!(
        contribute(&mut c, key(10), &accs[..1].to_vec()),
        Err(ContributeError::Circle(CircleError::InvalidMemberTokenAccount))
    );
    let mut swapped = accs.clone();
    swapped.swap(0, 1);
    let before = c;
    assert_eq!(
        contribute(&mut c, key(10), &swapped),
        Err(ContributeError::Circle(CircleError::InvalidMemberTokenAccount))
    );
    assert_eq!(c, before);
}
