//! Properties of the circle that hold across its instructions.
use vstd::prelude::*;

use crate::circle::{
    candidates, close_error, completes_round, contribute_error, is_accepted_step, join_error,
    lemma_accepted_step, lemma_seat_unique, mask_with, pot, winner_seat, CircleError,
    Contribution, SavingsCircle,
};
use crate::key::Key;
use crate::mask::{
    bits_below, count_set, full_mask, has_bit, lemma_count_all, lemma_count_complement,
    lemma_and_bit, lemma_bits_equal, lemma_count_zero, lemma_full_mask, lemma_full_mask_bit,
    lemma_zero_bit,
    lemma_not_bit, lemma_or_bit, lemma_set_indices, lemma_set_indices_rank, mask_of, set_indices,
};

verus! {

/// While rounds are played, the members still waiting for a pot are exactly
/// as many as the rounds left to play, the current one included.
pub proof fn lemma_waiting_members_match_rounds_left(c: SavingsCircle)
    requires
        c.wf(),
        c.started,
        c.current_round <= c.member_count,
    ensures
        candidates(c).len() == c.member_count - c.current_round + 1,
        candidates(c).len() >= 1,
{
    lemma_count_complement(c.paid_out_mask, c.member_count as nat);
}

/// A well-formed circle never refuses a contribution for lack of a member
/// to pay the pot to.
pub proof fn lemma_settling_always_finds_a_winner(
    c: SavingsCircle,
    member: Key,
    remaining: Seq<Key>,
    expected: Seq<Seq<u8>>,
)
    requires
        c.wf(),
    ensures
        contribute_error(c, member, remaining, expected) != Some(CircleError::CircleNotComplete),
{
    if c.started && 1 <= c.current_round <= c.member_count {
        lemma_waiting_members_match_rounds_left(c);
    }
}

/// The pot of a settled round goes to a seated member who has not won a pot
/// before, and that member is then recorded as paid out.
pub proof fn lemma_winner_has_not_won_before(
    c: SavingsCircle,
    member: Key,
    remaining: Seq<Key>,
    expected: Seq<Seq<u8>>,
    slot: u64,
)
    requires
        c.wf(),
        contribute_error(c, member, remaining, expected) is None,
        completes_round(c, c.slot_of(member@)),
    ensures
        0 <= winner_seat(c, slot) < c.member_count,
        !has_bit(c.paid_out_mask, winner_seat(c, slot)),
        has_bit(mask_with(c.paid_out_mask, winner_seat(c, slot)), winner_seat(c, slot)),
{
    let n = c.member_count as nat;
    lemma_set_indices(!c.paid_out_mask, n);
    let cands = candidates(c);
    let k = (slot as usize) as int % cands.len() as int;
    let w = cands[k];
    assert(w < n && has_bit(!c.paid_out_mask, w as int));
    lemma_not_bit(c.paid_out_mask, w as u16);
    lemma_or_bit(c.paid_out_mask, w as u16, w as u16);
}

/// A round is settled by the payment of the last member who had not paid it
/// yet, and by no other.
pub proof fn lemma_round_completes_when_everyone_paid(c: SavingsCircle, seat: int)
    requires
        c.wf(),
        0 <= seat < c.member_count,
    ensures
        completes_round(c, seat) == (forall|i: int|
            0 <= i < c.member_count && i != seat ==> has_bit(c.contributed_mask, i)),
{
    let n = c.member_count as nat;
    let m = mask_with(c.contributed_mask, seat);
    assert forall|i: int| 0 <= i < 16 implies has_bit(m, i) == (has_bit(c.contributed_mask, i)
        || i == seat) by {
        lemma_or_bit(c.contributed_mask, seat as u16, i as u16);
    }
    assert(bits_below(m, n));
    lemma_full_mask(m, n);
    if forall|i: int| 0 <= i < n ==> has_bit(m, i) {
        assert forall|i: int| 0 <= i < n && i != seat implies has_bit(c.contributed_mask, i) by {
            assert(has_bit(m, i));
        }
    } else {
        let i = choose|i: int| 0 <= i < n && !has_bit(m, i);
        assert(i != seat && !has_bit(c.contributed_mask, i));
    }
}

/// Once every round has paid out, every member has received the pot.
pub proof fn lemma_complete_circle_paid_everyone(c: SavingsCircle)
    requires
        c.wf(),
        c.is_complete(),
    ensures
        count_set(c.paid_out_mask, c.member_count as nat) == c.member_count,
        forall|i: int| 0 <= i < c.member_count ==> has_bit(c.paid_out_mask, i),
{
    lemma_count_all(c.paid_out_mask, c.member_count as nat);
}

/// Once every round has paid out, no further contribution is taken.
pub proof fn lemma_complete_circle_takes_no_contribution(
    c: SavingsCircle,
    member: Key,
    remaining: Seq<Key>,
    expected: Seq<Seq<u8>>,
)
    requires
        c.wf(),
        c.is_complete(),
    ensures
        contribute_error(c, member, remaining, expected) == Some(
            CircleError::CircleNotStartedError,
        ),
{
}


/// While rounds are played, a seated member who has not paid the current round
/// may pay it, with the right token accounts, as long as the pot fits in 64
/// bits.
pub proof fn lemma_unpaid_member_may_contribute(
    c: SavingsCircle,
    seat: int,
    remaining: Seq<Key>,
    expected: Seq<Seq<u8>>,
)
    requires
        c.wf(),
        c.started,
        c.current_round <= c.member_count,
        0 <= seat < c.member_count,
        !has_bit(c.contributed_mask, seat),
        remaining.len() == c.member_count,
        expected.len() == c.member_count,
        forall|i: int| 0 <= i < c.member_count ==> #[trigger] remaining[i]@ == expected[i],
        pot(c) <= u64::MAX,
    ensures
        contribute_error(c, c.members@[seat], remaining, expected) is None,
{
    let key = c.members@[seat];
    assert(c.member(seat) == key@);
    lemma_seat_unique(c, key@, seat);
    assert(c.has_member_below(key@, c.member_count as int));
    lemma_waiting_members_match_rounds_left(c);
}


/// `states[k + 1]` comes from `states[k]` by the accepted contribution of
/// `payers[k]`, a completed round being settled at `slots[k]`, and that
/// contribution gives `outs[k]`.
pub open spec fn is_accepted_run(
    states: Seq<SavingsCircle>,
    payers: Seq<Key>,
    slots: Seq<u64>,
    outs: Seq<Contribution>,
) -> bool {
    &&& states.len() == outs.len() + 1
    &&& payers.len() == outs.len()
    &&& slots.len() == outs.len()
    &&& forall|k: int|
        #![trigger outs[k]]
        0 <= k < outs.len() ==> is_accepted_step(
            states[k],
            states[k + 1],
            payers[k],
            slots[k],
            outs[k],
        )
}

/// How many of the contributions paid a pot to seat `seat`.
pub open spec fn payouts_to(outs: Seq<Contribution>, seat: int) -> nat
    decreases outs.len(),
{
    if outs.len() == 0 {
        0
    } else {
        payouts_to(outs.drop_last(), seat) + if outs.last().payout matches Some(p)
            && p.winner_index == seat {
            1nat
        } else {
            0nat
        }
    }
}

/// What the contributions moved into the vault.
pub open spec fn total_deposits(outs: Seq<Contribution>) -> int
    decreases outs.len(),
{
    if outs.len() == 0 {
        0
    } else {
        total_deposits(outs.drop_last()) + outs.last().deposit
    }
}

/// What the contributions paid out of the vault.
pub open spec fn total_payouts(outs: Seq<Contribution>) -> int
    decreases outs.len(),
{
    if outs.len() == 0 {
        0
    } else {
        total_payouts(outs.drop_last()) + match outs.last().payout {
            Some(p) => p.amount as int,
            None => 0,
        }
    }
}

/// No bit below `n` is set in a mask that counts none there.
proof fn lemma_count_none(mask: u16, n: nat)
    requires
        n <= 16,
        count_set(mask, n) == 0,
    ensures
        forall|i: int| 0 <= i < n ==> !#[trigger] has_bit(mask, i),
{
    lemma_set_indices(mask, n);
    assert forall|i: int| 0 <= i < n implies !#[trigger] has_bit(mask, i) by {
        if has_bit(mask, i) {
            assert(set_indices(mask, n).contains(i as u8));
        }
    }
}

/// What holds after the first `k` contributions of a run that starts with the
/// first round and no one paid.
proof fn lemma_run_prefix(
    states: Seq<SavingsCircle>,
    payers: Seq<Key>,
    slots: Seq<u64>,
    outs: Seq<Contribution>,
    k: nat,
)
    requires
        is_accepted_run(states, payers, slots, outs),
        states[0].wf(),
        states[0].started,
        states[0].current_round == 1,
        states[0].contributed_mask == 0,
        k <= outs.len(),
    ensures
        states[k as int].wf(),
        states[k as int].started,
        states[k as int].same_terms(states[0]),
        count_set(states[k as int].contributed_mask, states[0].member_count as nat)
            + states[0].member_count * (states[k as int].current_round - 1) == k,
        forall|j: int|
            0 <= j < states[0].member_count ==> #[trigger] payouts_to(outs.take(k as int), j) == (
            if has_bit(states[k as int].paid_out_mask, j) {
                1nat
            } else {
                0nat
            }),
        total_deposits(outs.take(k as int)) == k * states[0].contribution_amount,
        total_payouts(outs.take(k as int)) == (states[k as int].current_round - 1) * pot(
            states[0],
        ),
    decreases k,
{
    let c0 = states[0];
    let n = c0.member_count as nat;
    if k == 0 {
        assert(outs.take(0) =~= Seq::<Contribution>::empty());
        lemma_count_zero(n);
        lemma_count_none(c0.paid_out_mask, n);
    } else {
        let p = (k - 1) as nat;
        lemma_run_prefix(states, payers, slots, outs, p);
        let old = states[p as int];
        let new = states[k as int];
        assert(is_accepted_step(old, new, payers[p as int], slots[p as int], outs[p as int]));
        lemma_accepted_step(old, new, payers[p as int], slots[p as int], outs[p as int]);
        let pre = outs.take(p as int);
        let cur = outs.take(k as int);
        assert(cur.drop_last() =~= pre);
        assert(cur.last() == outs[p as int]);
        let seat = old.slot_of(payers[p as int]@);
        let r = old.current_round - 1;
        if completes_round(old, seat) {
            let w = winner_seat(old, slots[p as int]);
            lemma_count_zero(n);
            assert(n * (r + 1) == n * r + n) by (nonlinear_arith);
            assert((r + 1) * pot(c0) == r * pot(c0) + pot(c0)) by (nonlinear_arith);
            assert forall|j: int| 0 <= j < n implies #[trigger] payouts_to(cur, j) == (if has_bit(
                new.paid_out_mask,
                j,
            ) {
                1nat
            } else {
                0nat
            }) by {
                assert(payouts_to(pre, j) == (if has_bit(old.paid_out_mask, j) {
                    1nat
                } else {
                    0nat
                }));
                assert(has_bit(new.paid_out_mask, j) == (has_bit(old.paid_out_mask, j) || j == w));
            }
        } else {
            assert forall|j: int| 0 <= j < n implies #[trigger] payouts_to(cur, j) == (if has_bit(
                new.paid_out_mask,
                j,
            ) {
                1nat
            } else {
                0nat
            }) by {
                assert(payouts_to(pre, j) == (if has_bit(old.paid_out_mask, j) {
                    1nat
                } else {
                    0nat
                }));
            }
        }
        assert(k * c0.contribution_amount == p * c0.contribution_amount + c0.contribution_amount)
            by (nonlinear_arith)
            requires
                k == p + 1,
        ;
    }
}

/// Over the whole life of a circle, from the first round with no one paid
/// until every round has paid out, taking only accepted contributions: every
/// member paid every round (`n * n` contributions for `n` seats), every seat
/// received exactly one pot, the paid-out mask is full, and the vault paid out
/// exactly what was paid in.
pub proof fn lemma_full_cycle(
    states: Seq<SavingsCircle>,
    payers: Seq<Key>,
    slots: Seq<u64>,
    outs: Seq<Contribution>,
)
    requires
        is_accepted_run(states, payers, slots, outs),
        states[0].wf(),
        states[0].started,
        states[0].current_round == 1,
        states[0].contributed_mask == 0,
        states.last().is_complete(),
    ensures
        outs.len() == states[0].member_count * states[0].member_count,
        forall|j: int| 0 <= j < states[0].member_count ==> #[trigger] payouts_to(outs, j) == 1,
        states.last().paid_out_mask == full_mask(states[0].member_count as nat),
        total_payouts(outs) == states[0].member_count * pot(states[0]),
        total_deposits(outs) == total_payouts(outs),
{
    let c0 = states[0];
    let n = c0.member_count as nat;
    let k = outs.len();
    lemma_run_prefix(states, payers, slots, outs, k);
    assert(outs.take(k as int) =~= outs);
    let last = states[k as int];
    assert(last == states.last());
    lemma_count_zero(n);
    lemma_complete_circle_paid_everyone(last);
    lemma_full_mask(last.paid_out_mask, n);
    assert(k * c0.contribution_amount == n * (c0.contribution_amount * n)) by (nonlinear_arith)
        requires
            k == n * n,
    ;
}


/// The positions that `mask_to_indices` lists rebuild the mask restricted to
/// the positions below `count`, and there are as many as the set bits there.
pub proof fn lemma_indices_rebuild_mask(mask: u16, count: nat)
    requires
        count <= 16,
    ensures
        mask_of(set_indices(mask, count)) == (if count < 16 {
            mask & full_mask(count)
        } else {
            mask
        }),
        set_indices(mask, count).len() == count_set(mask, count),
{
    let s = set_indices(mask, count);
    lemma_set_indices(mask, count);
    lemma_mask_of_bits(s);
    let target = if count < 16 {
        mask & full_mask(count)
    } else {
        mask
    };
    assert forall|i: int| 0 <= i < 16 implies has_bit(mask_of(s), i) == has_bit(target, i) by {
        if count < 16 {
            lemma_and_bit(mask, full_mask(count), i as u16);
            lemma_full_mask_bit(count as u16, i as u16);
        }
        if s.contains(i as u8) {
            let k = choose|k: int| 0 <= k < s.len() && s[k] == i as u8;
            assert(s[k] < count && has_bit(mask, s[k] as int));
        }
    }
    lemma_bits_equal(mask_of(s), target);
}

/// The bits of `mask_of(s)` are the positions that `s` lists.
proof fn lemma_mask_of_bits(s: Seq<u8>)
    requires
        forall|k: int| 0 <= k < s.len() ==> #[trigger] s[k] < 16,
    ensures
        forall|i: int| 0 <= i < 16 ==> #[trigger] has_bit(mask_of(s), i) == s.contains(i as u8),
    decreases s.len(),
{
    if s.len() == 0 {
        assert forall|i: int| 0 <= i < 16 implies !#[trigger] has_bit(mask_of(s), i) by {
            lemma_zero_bit(i as u16);
        }
    } else {
        let rest = s.drop_last();
        let x = s.last();
        lemma_mask_of_bits(rest);
        assert forall|i: int| 0 <= i < 16 implies #[trigger] has_bit(mask_of(s), i)
            == s.contains(i as u8) by {
            lemma_or_bit(mask_of(rest), x as u16, i as u16);
            if rest.contains(i as u8) {
                let k = choose|k: int| 0 <= k < rest.len() && rest[k] == i as u8;
                assert(s[k] == i as u8);
            }
            if s.contains(i as u8) && x != i as u8 {
                let k = choose|k: int| 0 <= k < s.len() && s[k] == i as u8;
                assert(k < rest.len() && rest[k] == i as u8);
            }
            if x == i as u8 {
                assert(s[s.len() - 1] == i as u8);
            }
        }
    }
}


/// What an accepted contribution does, in terms of the seats and masks: the
/// payer sits in its seat; every payer deposits the contribution amount; the
/// round is settled exactly when every other seat has paid it. An unsettled
/// payment only marks the payer's seat. A settled one pays
/// `contribution_amount * member_count` to a seat that has not won yet, namely
/// the one with exactly `slot mod k` not-yet-won seats below it, where `k` is
/// the number of seats that have not won (the whole slot counts), marks that
/// seat as paid out, clears the round's payments and opens the next round.
pub proof fn lemma_settlement(
    old: SavingsCircle,
    new: SavingsCircle,
    member: Key,
    slot: u64,
    out: Contribution,
)
    requires
        old.wf(),
        is_accepted_step(old, new, member, slot, out),
    ensures
        0 <= old.slot_of(member@) < old.member_count,
        old.members@[old.slot_of(member@)]@ == member@,
        out.deposit == old.contribution_amount,
        out.payout is Some <==> (forall|i: int|
            0 <= i < old.member_count && i != old.slot_of(member@) ==> has_bit(
                old.contributed_mask,
                i,
            )),
        out.payout is None ==> {
            &&& new.contributed_mask == old.contributed_mask | (1u16 << (old.slot_of(member@) as u16))
            &&& new.paid_out_mask == old.paid_out_mask
            &&& new.current_round == old.current_round
        },
        out.payout matches Some(p) ==> {
            let k = count_set(!old.paid_out_mask, old.member_count as nat);
            &&& p.winner_index < old.member_count
            &&& !has_bit(old.paid_out_mask, p.winner_index as int)
            &&& count_set(!old.paid_out_mask, p.winner_index as nat) == (slot as usize) as int
                % k as int
            &&& slot <= usize::MAX ==> count_set(!old.paid_out_mask, p.winner_index as nat)
                == slot as int % k as int
            &&& p.amount == old.contribution_amount * old.member_count
            &&& new.paid_out_mask == old.paid_out_mask | (1u16 << (p.winner_index as u16))
            &&& new.contributed_mask == 0
            &&& new.current_round == old.current_round + 1
        },
{
    let n = old.member_count as nat;
    let seat = old.slot_of(member@);
    assert(old.has_member_below(member@, n as int));
    assert(old.member(seat) == member@);
    lemma_round_completes_when_everyone_paid(old, seat);
    if completes_round(old, seat) {
        let cands = candidates(old);
        let idx = (slot as usize) as int % cands.len() as int;
        lemma_set_indices_rank(!old.paid_out_mask, n, idx);
        let w = winner_seat(old, slot);
        assert(w == cands[idx] as int);
        lemma_not_bit(old.paid_out_mask, w as u16);
    }
}

/// An open circle with a free seat takes any key that does not hold a seat
/// yet, the creator's included.
pub proof fn lemma_new_key_may_join(c: SavingsCircle, member: Key)
    requires
        c.wf(),
        !c.started,
        forall|i: int| 0 <= i < c.joined_count ==> c.members@[i]@ != member@,
    ensures
        join_error(c, member) is None,
{
    if c.has_member_below(member@, c.joined_count as int) {
        let i = choose|i: int| 0 <= i < c.joined_count && #[trigger] c.member(i) == member@;
        assert(c.members@[i]@ == member@);
    }
}

/// A circle can be closed only by its creator, and only once every round has
/// paid out; before that (not started included) the creator is told the
/// circle is not complete.
pub proof fn lemma_close_only_when_complete(c: SavingsCircle, signer: Key)
    ensures
        close_error(c, signer) is None <==> (signer@ == c.creator@ && c.current_round
            == c.member_count + 1),
        signer@ == c.creator@ && c.current_round != c.member_count + 1 ==> close_error(c, signer)
            == Some(CircleError::CircleNotComplete),
        signer@ != c.creator@ ==> close_error(c, signer) == Some(CircleError::NotAMemberError),
{
}


/// The draw depends on the whole slot: two slots that leave different
/// remainders modulo the number of seats still waiting for a pot pick
/// different seats (for instance `s` and `s + 256` with three such seats).
pub proof fn lemma_draw_depends_on_whole_slot(c: SavingsCircle, s1: u64, s2: u64)
    requires
        c.wf(),
        c.started,
        c.current_round <= c.member_count,
        s1 <= usize::MAX,
        s2 <= usize::MAX,
        s1 as int % count_set(!c.paid_out_mask, c.member_count as nat) as int != s2 as int
            % count_set(!c.paid_out_mask, c.member_count as nat) as int,
    ensures
        winner_seat(c, s1) != winner_seat(c, s2),
{
    let n = c.member_count as nat;
    lemma_waiting_members_match_rounds_left(c);
    let cands = candidates(c);
    let i1 = (s1 as usize) as int % cands.len() as int;
    let i2 = (s2 as usize) as int % cands.len() as int;
    lemma_set_indices_rank(!c.paid_out_mask, n, i1);
    lemma_set_indices_rank(!c.paid_out_mask, n, i2);
}

} // verus!
