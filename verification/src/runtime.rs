//! The contribute instruction as the program runs it: it derives the member
//! token accounts and, when a round is settled, reads the current slot from
//! the runtime's clock.
use anchor_lang::prelude::Clock;
use anchor_lang::solana_program::program_error::ProgramError;
use anchor_lang::solana_program::sysvar::Sysvar;
use vstd::prelude::*;

use crate::address::{associated_token_account, member_token_address};
use crate::circle::{
    check_contributor, completes_round, contribute_at_slot, contribute_error, is_contributed,
    precheck_error, settle_error, CircleError, Contribution, SavingsCircle,
};
use crate::key::{key_views, Key};
use crate::mask::{count_set, has_bit};

verus! {

/// Declares `ProgramError` of solana-program-error (re-exported by
/// anchor-lang), the error of a failed sysvar read; nothing is seen inside it.
#[verifier::external_type_specification]
#[verifier::external_body]
pub struct ExProgramError(ProgramError);

/// Why a contribution did not go through.
#[derive(Debug, PartialEq, Eq)]
pub enum ContributeError {
    /// The circle's rules refused it.
    Circle(CircleError),
    /// A seat's member has no associated token account address (no bump seed
    /// gives one).
    NoTokenAddress,
    /// The round was to be settled but reading the runtime's clock failed.
    Clock(ProgramError),
}

/// The first fault among the token accounts passed for the first `k` seats:
/// the seat's associated token account does not exist, or the account passed
/// for it is another one.
pub open spec fn account_fault(c: SavingsCircle, remaining: Seq<Key>, k: nat) -> Option<
    ContributeError,
>
    decreases k,
{
    if k == 0 {
        None
    } else {
        match account_fault(c, remaining, (k - 1) as nat) {
            Some(f) => Some(f),
            None => match member_token_address(c, k - 1) {
                None => Some(ContributeError::NoTokenAddress),
                Some(address) => if remaining[k - 1]@ != address {
                    Some(ContributeError::Circle(CircleError::InvalidMemberTokenAccount))
                } else {
                    None
                },
            },
        }
    }
}

/// The first fault among the first `k` seats stays the first among more.
proof fn lemma_account_fault_stays(c: SavingsCircle, remaining: Seq<Key>, k: nat, m: nat)
    requires
        k <= m,
        account_fault(c, remaining, k) is Some,
    ensures
        account_fault(c, remaining, m) == account_fault(c, remaining, k),
    decreases m - k,
{
    if k < m {
        lemma_account_fault_stays(c, remaining, k, (m - 1) as nat);
    }
}

/// Calls `Clock::get` (the `Sysvar` impl of solana-sysvar, re-exported by
/// anchor-lang) and keeps the slot. Nothing is claimed of the slot or of when
/// the call fails: both come from the runtime (off-chain the call fails).
#[verifier::external_body]
fn current_slot() -> (r: Result<u64, ProgramError>) {
    Clock::get().map(|clock| clock.slot)
}

/// `slot` is a slot that a read of the runtime's clock (`current_slot`) has
/// given: nothing is known of it beyond having been read.
pub closed spec fn clock_can_read(slot: u64) -> bool {
    call_ensures(current_slot, (), Ok::<u64, ProgramError>(slot))
}

/// Records `member`'s payment for the current round. After the checks on the
/// circle and the member, the token account passed for each seat, in seat
/// order, is checked against the associated token account of the seat's
/// member. When the payment completes the round, the runtime's clock is read
/// and the round is settled at the current slot (see `contribute_at_slot`).
/// On refusal the circle is left as it was.
pub fn contribute(circle: &mut SavingsCircle, member: Key, remaining_accounts: &Vec<Key>) -> (r:
    Result<Contribution, ContributeError>)
    requires
        old(circle).wf(),
    ensures
        final(circle).wf(),
        r is Err ==> *final(circle) == *old(circle),
        match precheck_error(*old(circle), member, remaining_accounts@.len() as int) {
            Some(e) => r == Err::<Contribution, ContributeError>(ContributeError::Circle(e)),
            None => match account_fault(
                *old(circle),
                remaining_accounts@,
                old(circle).member_count as nat,
            ) {
                Some(f) => r == Err::<Contribution, ContributeError>(f),
                None => match settle_error(*old(circle), old(circle).slot_of(member@)) {
                    Some(e) => match r {
                        Err(ContributeError::Circle(e2)) => e2 == e,
                        Err(ContributeError::Clock(_)) => e == CircleError::InvalidMemberCount,
                        _ => false,
                    },
                    None => match r {
                        Ok(out) => exists|slot: u64|
                            is_contributed(*old(circle), *final(circle), member, slot, out),
                        Err(ContributeError::Clock(_)) => completes_round(
                            *old(circle),
                            old(circle).slot_of(member@),
                        ),
                        _ => false,
                    },
                },
            },
        },
        precheck_error(*old(circle), member, remaining_accounts@.len() as int) is None
            && account_fault(*old(circle), remaining_accounts@, old(circle).member_count as nat)
            is None && !completes_round(*old(circle), old(circle).slot_of(member@)) ==> r is Ok,
        r matches Ok(out) ==> out.deposit == old(circle).contribution_amount,
        r matches Ok(out) ==> (out.payout is None ==> {
            &&& final(circle).contributed_mask == old(circle).contributed_mask | (1u16 << (old(
                circle,
            ).slot_of(member@) as u16))
            &&& final(circle).paid_out_mask == old(circle).paid_out_mask
            &&& final(circle).current_round == old(circle).current_round
        }),
        r matches Ok(out) ==> (out.payout matches Some(p) ==> {
            let k = count_set(!old(circle).paid_out_mask, old(circle).member_count as nat);
            &&& p.winner_index < old(circle).member_count
            &&& !has_bit(old(circle).paid_out_mask, p.winner_index as int)
            &&& p.amount == old(circle).contribution_amount * old(circle).member_count
            &&& final(circle).paid_out_mask == old(circle).paid_out_mask | (1u16 << (
                p.winner_index as u16))
            &&& final(circle).contributed_mask == 0
            &&& final(circle).current_round == old(circle).current_round + 1
            &&& exists|s: u64|
                #[trigger] clock_can_read(s)
                    && is_contributed(*old(circle), *final(circle), member, s, out)
                    && count_set(!old(circle).paid_out_mask, p.winner_index as nat) == (
                s as usize) as int % k as int
        }),
{
    let seat = match check_contributor(circle, &member, remaining_accounts.len()) {
        Ok(seat) => seat,
        Err(e) => return Err(ContributeError::Circle(e)),
    };
    let n = circle.member_count;
    let mut expected: Vec<Key> = Vec::new();
    let mut i: u8 = 0;
    #[verifier::loop_isolation(false)]
    while i < n
        invariant
            n == circle.member_count <= 10,
            remaining_accounts@.len() == n,
            i <= n,
            expected@.len() == i,
            account_fault(*circle, remaining_accounts@, i as nat) is None,
            forall|j: int| 0 <= j < i ==> #[trigger] expected@[j]@ == remaining_accounts@[j]@,
        decreases n - i,
    {
        match associated_token_account(&circle.members[i as usize], &circle.mint) {
            None => {
                assert(member_token_address(*circle, i as int) is None);
                proof {
                    lemma_account_fault_stays(*circle, remaining_accounts@, (i + 1) as nat, n as nat);
                }
                return Err(ContributeError::NoTokenAddress);
            },
            Some(address) => {
                assert(member_token_address(*circle, i as int) == Some(address@));
                if !remaining_accounts[i as usize].equals(&address) {
                    proof {
                        lemma_account_fault_stays(
                            *circle,
                            remaining_accounts@,
                            (i + 1) as nat,
                            n as nat,
                        );
                    }
                    return Err(ContributeError::Circle(CircleError::InvalidMemberTokenAccount));
                }
                expected.push(address);
            },
        }
        i = i + 1;
    }
    proof {
        assert forall|j: int| 0 <= j < n implies #[trigger] remaining_accounts@[j]@ == key_views(
            expected@,
        )[j] by {
            assert(expected@[j]@ == remaining_accounts@[j]@);
        }
        assert(!(exists|j: int|
            0 <= j < n && #[trigger] remaining_accounts@[j]@ != key_views(expected@)[j]));
        assert(contribute_error(*circle, member, remaining_accounts@, key_views(expected@))
            == settle_error(*circle, circle.slot_of(member@)));
        assert(seat == circle.slot_of(member@));
    }
    let mut trial = *circle;
    match contribute_at_slot(&mut trial, member, remaining_accounts, &expected, 0) {
        Err(CircleError::InvalidMemberCount) => {
            // The round was complete; the clock is read before the pot is sized.
            match current_slot() {
                Ok(_) => Err(ContributeError::Circle(CircleError::InvalidMemberCount)),
                Err(e) => Err(ContributeError::Clock(e)),
            }
        },
        Err(e) => Err(ContributeError::Circle(e)),
        Ok(out) => {
            if out.payout.is_none() {
                *circle = trial;
                Ok(out)
            } else {
                let clock = current_slot();
                match clock {
                    Ok(slot) => {
                        assert(clock_can_read(slot));
                        match contribute_at_slot(circle, member, remaining_accounts, &expected, slot) {
                            Ok(settled) => Ok(settled),
                            Err(e) => Err(ContributeError::Circle(e)),
                        }
                    },
                    Err(e) => Err(ContributeError::Clock(e)),
                }
            }
        },
    }
}

} // verus!
