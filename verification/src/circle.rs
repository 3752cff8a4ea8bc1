//! The savings circle's state and the rules of its instructions.
use vstd::prelude::*;

use crate::key::{key_views, zero_bytes, Key};
use crate::mask::{
    bits_below, count_set, full_mask, has_bit, lemma_count_complement, lemma_count_set_bit,
    lemma_count_all, lemma_count_zero, lemma_full_mask, lemma_not_bit, lemma_or_bit, lemma_set_indices,
    lemma_test_bit, lemma_zero_bit, mask_to_indices, set_indices,
};

verus! {

/// The largest number of members a circle can have.
pub const MAX_MEMBERS: u8 = 10;

/// Why an instruction on a circle is refused.
#[derive(Clone, Copy, Debug, PartialEq, Eq, Structural)]
pub enum CircleError {
    /// Circle is already full or has already started.
    CircleFullError,
    /// This account is already a member of the circle.
    AlreadyMemberError,
    /// Circle has not started yet (not all seats are filled).
    CircleNotStartedError,
    /// Signer is not a member of this circle.
    NotAMemberError,
    /// This member has already contributed for the current round.
    AlreadyContributedError,
    /// A provided token account does not match the expected member token account.
    InvalidMemberTokenAccount,
    /// Circle has not completed all rounds yet.
    CircleNotComplete,
    /// The member count must be between 2 and `MAX_MEMBERS`, with a positive
    /// contribution amount.
    InvalidMemberCount,
}

impl CircleError {
    /// The message that goes with each error.
    pub open spec fn spec_message(self) -> Seq<char> {
        match self {
            CircleError::CircleFullError => "Circle is already full or has already started"@,
            CircleError::AlreadyMemberError => "This account is already a member of the circle"@,
            CircleError::CircleNotStartedError =>
                "Circle has not started yet (not all seats are filled)"@,
            CircleError::NotAMemberError => "Signer is not a member of this circle"@,
            CircleError::AlreadyContributedError =>
                "This member has already contributed for the current round"@,
            CircleError::InvalidMemberTokenAccount =>
                "A provided token account does not match the expected member ATA"@,
            CircleError::CircleNotComplete => "Circle has not completed all rounds yet"@,
            CircleError::InvalidMemberCount =>
                "member_count must be between 2 and MAX_MEMBERS, with a positive contribution_amount"@,
        }
    }

    /// The message that goes with each error.
    pub fn message(&self) -> (s: &'static str)
        ensures
            s@ == self.spec_message(),
    {
        match self {
            CircleError::CircleFullError => "Circle is already full or has already started",
            CircleError::AlreadyMemberError => "This account is already a member of the circle",
            CircleError::CircleNotStartedError =>
                "Circle has not started yet (not all seats are filled)",
            CircleError::NotAMemberError => "Signer is not a member of this circle",
            CircleError::AlreadyContributedError =>
                "This member has already contributed for the current round",
            CircleError::InvalidMemberTokenAccount =>
                "A provided token account does not match the expected member ATA",
            CircleError::CircleNotComplete => "Circle has not completed all rounds yet",
            CircleError::InvalidMemberCount =>
                "member_count must be between 2 and MAX_MEMBERS, with a positive contribution_amount",
        }
    }
}

/// The on-chain state of one circle.
///
/// `current_round` is 0 before the circle is full, runs from 1 to
/// `member_count` while rounds are played, and is `member_count + 1` once
/// every round has paid out. Bit `i` of `contributed_mask` is set when the
/// member in slot `i` has paid this round; bit `i` of `paid_out_mask` when
/// that member has already received a pot.
#[derive(Clone, Copy, Debug, PartialEq, Eq)]
pub struct SavingsCircle {
    pub creator: Key,
    pub circle_id: u64,
    pub mint: Key,
    pub contribution_amount: u64,
    pub member_count: u8,
    pub joined_count: u8,
    pub members: [Key; 10],
    pub current_round: u8,
    pub contributed_mask: u16,
    pub paid_out_mask: u16,
    pub started: bool,
    pub bump: u8,
}

/// What a contribution asks the caller to move: the member's deposit into
/// the vault and, when it completed the round, the pot paid to the winner.
#[derive(Clone, Copy, Debug, PartialEq, Eq, Structural)]
pub struct Contribution {
    pub deposit: u64,
    pub payout: Option<Payout>,
}

/// The pot of a completed round and the slot of the member who receives it.
#[derive(Clone, Copy, Debug, PartialEq, Eq, Structural)]
pub struct Payout {
    pub winner_index: usize,
    pub amount: u64,
}

impl SavingsCircle {
    /// The bytes an account holding a circle takes: an 8-byte account
    /// discriminator followed by the fields.
    pub const MAX_SIZE: usize = 8 + 32 + 8 + 32 + 8 + 1 + 1 + 32 * 10 + 1 + 2 + 2 + 1 + 1;

    /// The key in member slot `i`, as bytes.
    pub open spec fn member(self, i: int) -> Seq<u8> {
        self.members@[i]@
    }

    /// `key` sits in one of the first `upto` member slots.
    pub open spec fn has_member_below(self, key: Seq<u8>, upto: int) -> bool {
        exists|i: int| 0 <= i < upto && #[trigger] self.member(i) == key
    }

    /// The slot of `key` among the seats of the circle.
    pub open spec fn slot_of(self, key: Seq<u8>) -> int {
        choose|i: int| 0 <= i < self.member_count && #[trigger] self.member(i) == key
    }

    /// The invariant that every circle made by `create_circle` and changed
    /// only by this library's instructions keeps.
    pub open spec fn wf(self) -> bool {
        &&& 2 <= self.member_count <= MAX_MEMBERS
        &&& self.contribution_amount > 0
        &&& self.joined_count <= self.member_count
        &&& forall|i: int, j: int|
            0 <= i < j < self.joined_count ==> #[trigger] self.member(i) != #[trigger] self.member(
                j,
            )
        &&& forall|i: int| self.joined_count <= i < 10 ==> #[trigger] self.member(i) == zero_bytes()
        &&& self.started == (self.joined_count == self.member_count)
        &&& !self.started ==> self.current_round == 0 && self.contributed_mask == 0
            && self.paid_out_mask == 0
        &&& self.started ==> 1 <= self.current_round <= self.member_count + 1
        &&& bits_below(self.contributed_mask, self.member_count as nat)
        &&& bits_below(self.paid_out_mask, self.member_count as nat)
        &&& self.started ==> count_set(self.paid_out_mask, self.member_count as nat)
            == self.current_round - 1
        &&& self.current_round == self.member_count + 1 ==> self.contributed_mask == 0
    }

    /// Every round has paid out.
    pub open spec fn is_complete(self) -> bool {
        self.current_round == self.member_count + 1
    }

    /// The fields that no instruction after creation changes.
    pub open spec fn same_terms(self, other: SavingsCircle) -> bool {
        &&& self.creator == other.creator
        &&& self.circle_id == other.circle_id
        &&& self.mint == other.mint
        &&& self.contribution_amount == other.contribution_amount
        &&& self.member_count == other.member_count
        &&& self.bump == other.bump
    }
}

/// `c` is the circle that `create_circle` makes from these arguments.
pub open spec fn is_new_circle(
    c: SavingsCircle,
    creator: Key,
    circle_id: u64,
    mint: Key,
    contribution_amount: u64,
    member_count: u8,
    bump: u8,
) -> bool {
    &&& c.creator == creator
    &&& c.circle_id == circle_id
    &&& c.mint == mint
    &&& c.contribution_amount == contribution_amount
    &&& c.member_count == member_count
    &&& c.joined_count == 0
    &&& forall|i: int| 0 <= i < 10 ==> #[trigger] c.member(i) == zero_bytes()
    &&& c.current_round == 0
    &&& c.contributed_mask == 0
    &&& c.paid_out_mask == 0
    &&& !c.started
    &&& c.bump == bump
}

/// The terms a new circle is refused for.
pub open spec fn create_error(contribution_amount: u64, member_count: u8) -> Option<CircleError> {
    if !(2 <= member_count <= MAX_MEMBERS) || contribution_amount == 0 {
        Some(CircleError::InvalidMemberCount)
    } else {
        None
    }
}

/// Opens a circle of `member_count` seats (2 to `MAX_MEMBERS`) in which every
/// member pays `contribution_amount` (more than 0) each round. No one has
/// joined yet and no round has started.
pub fn create_circle(
    creator: Key,
    circle_id: u64,
    mint: Key,
    contribution_amount: u64,
    member_count: u8,
    bump: u8,
) -> (r: Result<SavingsCircle, CircleError>)
    ensures
        match create_error(contribution_amount, member_count) {
            Some(e) => r == Err::<SavingsCircle, CircleError>(e),
            None => r is Ok,
        },
        r matches Ok(c) ==> c.wf() && is_new_circle(
            c,
            creator,
            circle_id,
            mint,
            contribution_amount,
            member_count,
            bump,
        ),
{
    if !(2 <= member_count && member_count <= MAX_MEMBERS) {
        return Err(CircleError::InvalidMemberCount);
    }
    if !(contribution_amount > 0) {
        return Err(CircleError::InvalidMemberCount);
    }
    let circle = SavingsCircle {
        creator,
        circle_id,
        mint,
        contribution_amount,
        member_count,
        joined_count: 0,
        members: [Key::zero();10],
        current_round: 0,
        contributed_mask: 0,
        paid_out_mask: 0,
        started: false,
        bump,
    };
    proof {
        assert forall|i: int| 0 <= i < 16 implies !has_bit(0u16, i) by {
            lemma_zero_bit(i as u16);
        }
        lemma_count_zero(member_count as nat);
    }
    Ok(circle)
}


/// Why `member` may not join `c`, if it may not.
pub open spec fn join_error(c: SavingsCircle, member: Key) -> Option<CircleError> {
    if c.started {
        Some(CircleError::CircleFullError)
    } else if c.joined_count >= c.member_count {
        Some(CircleError::CircleFullError)
    } else if c.has_member_below(member@, c.joined_count as int) {
        Some(CircleError::AlreadyMemberError)
    } else {
        None
    }
}

/// `new` is `old` after `member` took the next free seat; the circle starts
/// with round 1 when that was the last seat.
pub open spec fn is_joined(old: SavingsCircle, new: SavingsCircle, member: Key) -> bool {
    let seat = old.joined_count as int;
    let full = old.joined_count + 1 == old.member_count;
    &&& new.same_terms(old)
    &&& new.members@ == old.members@.update(seat, member)
    &&& new.joined_count == old.joined_count + 1
    &&& new.started == full
    &&& new.current_round == (if full { 1 } else { old.current_round })
    &&& new.contributed_mask == old.contributed_mask
    &&& new.paid_out_mask == old.paid_out_mask
}

/// The first of the first `upto` seats that `key` sits in.
fn seat_of(circle: &SavingsCircle, key: &Key, upto: u8) -> (r: Option<u8>)
    requires
        upto <= 10,
    ensures
        match r {
            Some(i) => i < upto && circle.member(i as int) == key@ && forall|j: int|
                0 <= j < i ==> #[trigger] circle.member(j) != key@,
            None => !circle.has_member_below(key@, upto as int),
        },
{
    let mut i: u8 = 0;
    while i < upto
        invariant
            i <= upto <= 10,
            forall|j: int| 0 <= j < i ==> #[trigger] circle.member(j) != key@,
        decreases upto - i,
    {
        if circle.members[i as usize].equals(key) {
            return Some(i);
        }
        i = i + 1;
    }
    None
}

/// Seats `member` in the next free slot of a circle that has not started. When
/// that fills the circle it starts, with round 1.
pub fn join_circle(circle: &mut SavingsCircle, member: Key) -> (r: Result<(), CircleError>)
    requires
        old(circle).wf(),
    ensures
        final(circle).wf(),
        match join_error(*old(circle), member) {
            Some(e) => r == Err::<(), CircleError>(e) && *final(circle) == *old(circle),
            None => r is Ok && is_joined(*old(circle), *final(circle), member),
        },
        r is Ok <==> (!old(circle).started && old(circle).joined_count < old(circle).member_count
            && forall|i: int|
            0 <= i < old(circle).joined_count ==> old(circle).members@[i]@ != member@),
        r == Err::<(), CircleError>(CircleError::CircleFullError) <==> (old(circle).started
            || old(circle).joined_count >= old(circle).member_count),
        r is Err ==> *final(circle) == *old(circle),
        r is Ok ==> {
            &&& final(circle).members@[old(circle).joined_count as int] == member
            &&& final(circle).joined_count == old(circle).joined_count + 1
            &&& forall|i: int|
                0 <= i < 10 && i != old(circle).joined_count ==> final(circle).members@[i]
                    == old(circle).members@[i]
            &&& final(circle).started == (old(circle).joined_count + 1 == old(circle).member_count)
            &&& final(circle).started ==> final(circle).current_round == 1
        },
{
    proof {
        if !old(circle).started && old(circle).joined_count < old(circle).member_count && forall|
            i: int,
        | 0 <= i < old(circle).joined_count ==> old(circle).members@[i]@ != member@ {
            crate::laws::lemma_new_key_may_join(*old(circle), member);
        }
        if old(circle).has_member_below(member@, old(circle).joined_count as int) {
            let i = choose|i: int|
                0 <= i < old(circle).joined_count && #[trigger] old(circle).member(i) == member@;
            assert(old(circle).members@[i]@ == member@);
        } else {
            assert forall|i: int| 0 <= i < old(circle).joined_count implies old(circle).members@[
                i
            ]@ != member@ by {
                assert(old(circle).member(i) != member@);
            }
        }
    }
    if circle.started {
        return Err(CircleError::CircleFullError);
    }
    if !(circle.joined_count < circle.member_count) {
        return Err(CircleError::CircleFullError);
    }
    if seat_of(circle, &member, circle.joined_count).is_some() {
        return Err(CircleError::AlreadyMemberError);
    }
    let ghost before = *circle;
    let idx = circle.joined_count as usize;
    circle.members[idx] = member;
    circle.joined_count = circle.joined_count + 1;
    if circle.joined_count == circle.member_count {
        circle.started = true;
        circle.current_round = 1;
    }
    proof {
        assert(circle.members@ == before.members@.update(idx as int, member));
        assert forall|i: int, j: int|
            0 <= i < j < circle.joined_count implies #[trigger] circle.member(i)
            != #[trigger] circle.member(j) by {
            assert(circle.member(i) == before.member(i));
            if j == idx {
                assert(circle.member(j) == member@);
                assert(!before.has_member_below(member@, idx as int));
            } else {
                assert(circle.member(j) == before.member(j));
            }
        }
        assert forall|i: int| circle.joined_count <= i < 10 implies #[trigger] circle.member(i)
            == zero_bytes() by {
            assert(circle.member(i) == before.member(i));
        }
        lemma_count_zero(circle.member_count as nat);
    }
    Ok(())
}


/// The contributed mask once the member in seat `i` has paid.
pub open spec fn mask_with(mask: u16, i: int) -> u16 {
    mask | (1u16 << (i as u16))
}

/// The payment of the member in seat `i` completes the current round: every
/// member has then paid.
pub open spec fn completes_round(c: SavingsCircle, i: int) -> bool {
    mask_with(c.contributed_mask, i) == full_mask(c.member_count as nat)
}

/// The seats of the members who have not won a pot yet, in increasing order.
pub open spec fn candidates(c: SavingsCircle) -> Seq<u8> {
    set_indices(!c.paid_out_mask, c.member_count as nat)
}

/// The seat that wins the round when the round is settled at `slot`.
pub open spec fn winner_seat(c: SavingsCircle, slot: u64) -> int {
    let cands = candidates(c);
    cands[(slot as usize) as int % cands.len() as int] as int
}

/// The pot of one round: every member's contribution.
pub open spec fn pot(c: SavingsCircle) -> int {
    c.contribution_amount * c.member_count
}

/// Why `member` may not contribute to `c` now, passing `accounts_len` member
/// token accounts, before those accounts are looked at, if it may not.
pub open spec fn precheck_error(c: SavingsCircle, member: Key, accounts_len: int) -> Option<
    CircleError,
> {
    if !c.started {
        Some(CircleError::CircleNotStartedError)
    } else if !(1 <= c.current_round <= c.member_count) {
        Some(CircleError::CircleNotStartedError)
    } else if !c.has_member_below(member@, c.member_count as int) {
        Some(CircleError::NotAMemberError)
    } else if has_bit(c.contributed_mask, c.slot_of(member@)) {
        Some(CircleError::AlreadyContributedError)
    } else if accounts_len != c.member_count {
        Some(CircleError::InvalidMemberTokenAccount)
    } else {
        None
    }
}

/// Why the round that the payment of seat `seat` completes cannot be settled,
/// if it cannot.
pub open spec fn settle_error(c: SavingsCircle, seat: int) -> Option<CircleError> {
    if completes_round(c, seat) && candidates(c).len() == 0 {
        Some(CircleError::CircleNotComplete)
    } else if completes_round(c, seat) && pot(c) > u64::MAX {
        Some(CircleError::InvalidMemberCount)
    } else {
        None
    }
}

/// Why `member` may not contribute to `c` now, given the member token
/// accounts it passed (`remaining`) and those that belong to the seats in
/// order (`expected`, as bytes), if it may not.
pub open spec fn contribute_error(
    c: SavingsCircle,
    member: Key,
    remaining: Seq<Key>,
    expected: Seq<Seq<u8>>,
) -> Option<CircleError> {
    match precheck_error(c, member, remaining.len() as int) {
        Some(e) => Some(e),
        None => if exists|i: int|
            0 <= i < c.member_count && #[trigger] remaining[i]@ != expected[i] {
            Some(CircleError::InvalidMemberTokenAccount)
        } else {
            settle_error(c, c.slot_of(member@))
        },
    }
}

/// `new` and `out` are what `member`'s accepted contribution to `old` gives
/// when a completed round is settled at `slot`: the member's seat is marked as
/// paid; when that completes the round, the pot goes to `winner_seat`, whose
/// win is recorded, and the next round begins with no one paid.
pub open spec fn is_contributed(
    old: SavingsCircle,
    new: SavingsCircle,
    member: Key,
    slot: u64,
    out: Contribution,
) -> bool {
    let seat = old.slot_of(member@);
    &&& new.same_terms(old)
    &&& new.members == old.members
    &&& new.joined_count == old.joined_count
    &&& new.started == old.started
    &&& out.deposit == old.contribution_amount
    &&& if completes_round(old, seat) {
        let w = winner_seat(old, slot);
        &&& out.payout == Some(Payout { winner_index: w as usize, amount: pot(old) as u64 })
        &&& new.paid_out_mask == mask_with(old.paid_out_mask, w)
        &&& new.contributed_mask == 0
        &&& new.current_round == old.current_round + 1
    } else {
        &&& out.payout is None
        &&& new.contributed_mask == mask_with(old.contributed_mask, seat)
        &&& new.paid_out_mask == old.paid_out_mask
        &&& new.current_round == old.current_round
    }
}

/// Circles with the same member slots hold the same key in each seat.
proof fn lemma_same_seats(a: SavingsCircle, b: SavingsCircle)
    requires
        a.members == b.members,
    ensures
        forall|i: int| #![trigger a.member(i)] #![trigger b.member(i)] a.member(i) == b.member(i),
{
}

/// In a started circle every member has one seat.
pub proof fn lemma_seat_unique(c: SavingsCircle, key: Seq<u8>, i: int)
    requires
        c.wf(),
        c.started,
        0 <= i < c.member_count,
        c.member(i) == key,
    ensures
        c.slot_of(key) == i,
{
    assert(c.has_member_below(key, c.member_count as int));
    let j = c.slot_of(key);
    if j != i {
        if j < i {
            assert(c.member(j) != c.member(i));
        } else {
            assert(c.member(i) != c.member(j));
        }
    }
}

/// The checks on a contribution that come before its token accounts are
/// looked at: the circle is running, `member` holds a seat, has not paid this
/// round, and passed one token account per seat. Gives the member's seat.
pub fn check_contributor(circle: &SavingsCircle, member: &Key, accounts_len: usize) -> (r: Result<
    u8,
    CircleError,
>)
    requires
        circle.wf(),
    ensures
        match precheck_error(*circle, *member, accounts_len as int) {
            Some(e) => r == Err::<u8, CircleError>(e),
            None => r matches Ok(seat) && seat == circle.slot_of(member@) && seat
                < circle.member_count,
        },
{
    let n = circle.member_count;
    if !circle.started {
        return Err(CircleError::CircleNotStartedError);
    }
    if !(circle.current_round >= 1 && circle.current_round <= n) {
        return Err(CircleError::CircleNotStartedError);
    }
    let seat = match seat_of(circle, member, n) {
        Some(i) => i,
        None => return Err(CircleError::NotAMemberError),
    };
    proof {
        lemma_seat_unique(*circle, member@, seat as int);
        lemma_test_bit(circle.contributed_mask, seat as u16);
    }
    if circle.contributed_mask & (1u16 << (seat as u16)) != 0 {
        return Err(CircleError::AlreadyContributedError);
    }
    if accounts_len != n as usize {
        return Err(CircleError::InvalidMemberTokenAccount);
    }
    Ok(seat)
}

/// Records the payment of `member` for the current round, given the member
/// token accounts passed with it and those that belong to the seats in order.
/// When every member has then paid, the round is settled at `slot`: one member
/// who has not won yet is picked (the seat at `slot` modulo the number of
/// such members, counting in seat order), receives the pot, and the next round
/// begins. On refusal the circle is left as it was.
pub fn contribute_at_slot(
    circle: &mut SavingsCircle,
    member: Key,
    remaining_accounts: &Vec<Key>,
    expected_accounts: &Vec<Key>,
    slot: u64,
) -> (r: Result<Contribution, CircleError>)
    requires
        old(circle).wf(),
        expected_accounts@.len() == old(circle).member_count,
    ensures
        final(circle).wf(),
        match contribute_error(
            *old(circle),
            member,
            remaining_accounts@,
            key_views(expected_accounts@),
        ) {
            Some(e) => r == Err::<Contribution, CircleError>(e) && *final(circle) == *old(circle),
            None => r matches Ok(out) && is_contributed(
                *old(circle),
                *final(circle),
                member,
                slot,
                out,
            ),
        },
        r matches Ok(out) ==> out.deposit == old(circle).contribution_amount,
        r matches Ok(out) ==> (out.payout is Some <==> (forall|i: int|
            0 <= i < old(circle).member_count && i != old(circle).slot_of(member@) ==> has_bit(
                old(circle).contributed_mask,
                i,
            ))),
        r matches Ok(out) ==> out.payout is None ==> {
            &&& final(circle).contributed_mask == old(circle).contributed_mask | (1u16 << (old(
                circle,
            ).slot_of(member@) as u16))
            &&& final(circle).paid_out_mask == old(circle).paid_out_mask
            &&& final(circle).current_round == old(circle).current_round
        },
        r matches Ok(out) ==> (out.payout matches Some(p) ==> {
            let k = count_set(!old(circle).paid_out_mask, old(circle).member_count as nat);
            &&& p.winner_index < old(circle).member_count
            &&& !has_bit(old(circle).paid_out_mask, p.winner_index as int)
            &&& count_set(!old(circle).paid_out_mask, p.winner_index as nat) == (slot as usize) as int
                % k as int
            &&& slot <= usize::MAX ==> count_set(!old(circle).paid_out_mask, p.winner_index as nat)
                == slot as int % k as int
            &&& p.amount == old(circle).contribution_amount * old(circle).member_count
            &&& final(circle).paid_out_mask == old(circle).paid_out_mask | (1u16 << (
                p.winner_index as u16))
            &&& final(circle).contributed_mask == 0
            &&& final(circle).current_round == old(circle).current_round + 1
        }),
{
    let ghost before = *circle;
    let r = record_contribution(circle, member, remaining_accounts, expected_accounts, slot);
    proof {
        if let Ok(out) = r {
            crate::laws::lemma_settlement(before, *circle, member, slot, out);
        }
    }
    r
}

/// The rules of `contribute_at_slot`, stated over the spec functions.
fn record_contribution(
    circle: &mut SavingsCircle,
    member: Key,
    remaining_accounts: &Vec<Key>,
    expected_accounts: &Vec<Key>,
    slot: u64,
) -> (r: Result<Contribution, CircleError>)
    requires
        old(circle).wf(),
        expected_accounts@.len() == old(circle).member_count,
    ensures
        final(circle).wf(),
        match contribute_error(
            *old(circle),
            member,
            remaining_accounts@,
            key_views(expected_accounts@),
        ) {
            Some(e) => r == Err::<Contribution, CircleError>(e) && *final(circle) == *old(circle),
            None => r matches Ok(out) && is_contributed(
                *old(circle),
                *final(circle),
                member,
                slot,
                out,
            ),
        },
{
    let ghost before = *circle;
    let n = circle.member_count;
    let seat = match check_contributor(circle, &member, remaining_accounts.len()) {
        Ok(seat) => seat,
        Err(e) => return Err(e),
    };
    let mut i: usize = 0;
    #[verifier::loop_isolation(false)]
    while i < remaining_accounts.len()
        invariant
            i <= remaining_accounts@.len() == n == expected_accounts@.len(),
            forall|j: int|
                0 <= j < i ==> #[trigger] remaining_accounts@[j]@ == key_views(
                    expected_accounts@,
                )[j],
        decreases remaining_accounts@.len() - i,
    {
        if !remaining_accounts[i].equals(&expected_accounts[i]) {
            assert(remaining_accounts@[i as int]@ != key_views(expected_accounts@)[i as int]);
            return Err(CircleError::InvalidMemberTokenAccount);
        }
        i = i + 1;
    }
    let contributed = circle.contributed_mask | (1u16 << (seat as u16));
    assert((1u16 << (n as u16)) >= 1u16) by (bit_vector)
        requires
            n < 16,
    ;
    let full = ((1u16 << (n as u16)) - 1) as u16;
    proof {
        assert forall|k: int| #[trigger] has_bit(contributed, k) implies k < n by {
            lemma_or_bit(before.contributed_mask, seat as u16, k as u16);
        }
        lemma_full_mask(contributed, n as nat);
    }
    if contributed == full {
        let candidates = mask_to_indices(!circle.paid_out_mask, n);
        proof {
            lemma_set_indices(!before.paid_out_mask, n as nat);
        }
        if candidates.len() == 0 {
            return Err(CircleError::CircleNotComplete);
        }
        let seed = #[verifier::truncate] (slot as usize);
        let winner = candidates[seed % candidates.len()];
        let pot = match circle.contribution_amount.checked_mul(n as u64) {
            Some(p) => p,
            None => return Err(CircleError::InvalidMemberCount),
        };
        proof {
            let k = seed as int % candidates@.len() as int;
            assert(candidates@[k] == winner);
            lemma_not_bit(before.paid_out_mask, winner as u16);
            lemma_count_set_bit(before.paid_out_mask, winner as u16, n as nat);
            assert forall|k: int| #[trigger]
                has_bit(mask_with(before.paid_out_mask, winner as int), k) implies k < n by {
                lemma_or_bit(before.paid_out_mask, winner as u16, k as u16);
            }
            assert forall|k: int| #[trigger] has_bit(0u16, k) implies k < n by {
                lemma_zero_bit(k as u16);
            }
        }
        circle.paid_out_mask = circle.paid_out_mask | (1u16 << (winner as u16));
        circle.contributed_mask = 0;
        circle.current_round = circle.current_round + 1;
        proof {
            assert(circle.paid_out_mask == mask_with(before.paid_out_mask, winner as int));
            lemma_same_seats(*circle, before);
        }
        Ok(
            Contribution {
                deposit: circle.contribution_amount,
                payout: Some(Payout { winner_index: winner as usize, amount: pot }),
            },
        )
    } else {
        circle.contributed_mask = contributed;
        proof {
            lemma_same_seats(*circle, before);
        }
        Ok(Contribution { deposit: circle.contribution_amount, payout: None })
    }
}


/// Why `signer` may not close `c`, if it may not.
pub open spec fn close_error(c: SavingsCircle, signer: Key) -> Option<CircleError> {
    if signer@ != c.creator@ {
        Some(CircleError::NotAMemberError)
    } else if c.current_round != c.member_count + 1 {
        Some(CircleError::CircleNotComplete)
    } else {
        None
    }
}

/// Allows the creator, and no one else, to close a circle once every round
/// has paid out; closing hands the vault's rent back to the creator.
pub fn close_circle(circle: &SavingsCircle, signer: Key) -> (r: Result<(), CircleError>)
    requires
        circle.member_count < u8::MAX,
    ensures
        match close_error(*circle, signer) {
            Some(e) => r == Err::<(), CircleError>(e),
            None => r is Ok,
        },
        r is Ok <==> (signer@ == circle.creator@ && circle.current_round == circle.member_count
            + 1),
        signer@ != circle.creator@ ==> r == Err::<(), CircleError>(CircleError::NotAMemberError),
        signer@ == circle.creator@ && circle.current_round != circle.member_count + 1 ==> r == Err::<
            (),
            CircleError,
        >(CircleError::CircleNotComplete),
{
    if !circle.creator.equals(&signer) {
        return Err(CircleError::NotAMemberError);
    }
    if !(circle.current_round == circle.member_count + 1) {
        return Err(CircleError::CircleNotComplete);
    }
    Ok(())
}


/// No bit of `mask` at or above `n` is set.
fn mask_within(mask: u16, n: u8) -> (r: bool)
    requires
        n <= 16,
    ensures
        r == bits_below(mask, n as nat),
{
    let mut i: u8 = n;
    while i < 16
        invariant
            n <= i <= 16,
            forall|k: int| n <= k < i ==> !#[trigger] has_bit(mask, k),
        decreases 16 - i,
    {
        proof {
            lemma_test_bit(mask, i as u16);
        }
        if mask & (1u16 << i) != 0 {
            return false;
        }
        i = i + 1;
    }
    true
}

impl SavingsCircle {
    /// Checks the invariant `wf`, which every circle made and changed by this
    /// library keeps; account data read from elsewhere can be checked with it
    /// before an instruction runs on it.
    pub fn is_well_formed(&self) -> (r: bool)
        ensures
            r == self.wf(),
    {
        if !(2 <= self.member_count && self.member_count <= MAX_MEMBERS) {
            return false;
        }
        if !(self.contribution_amount > 0) || !(self.joined_count <= self.member_count) {
            return false;
        }
        let mut j: u8 = 1;
        while j < self.joined_count
            invariant
                1 <= j,
                self.joined_count <= self.member_count <= 10,
                j <= self.joined_count || self.joined_count == 0,
                forall|a: int, b: int|
                    0 <= a < b < j && b < self.joined_count ==> #[trigger] self.member(a)
                        != #[trigger] self.member(b),
            decreases self.joined_count - j,
        {
            let found = seat_of(self, &self.members[j as usize], j);
            if let Some(i) = found {
                assert(self.member(i as int) == self.member(j as int));
                return false;
            }
            j = j + 1;
        }
        let zero = Key::zero();
        let mut k: u8 = self.joined_count;
        while k < 10
            invariant
                self.joined_count <= k <= 10,
                zero@ == zero_bytes(),
                forall|i: int| self.joined_count <= i < k ==> #[trigger] self.member(i) == zero_bytes(),
            decreases 10 - k,
        {
            if !self.members[k as usize].equals(&zero) {
                assert(self.member(k as int) != zero_bytes());
                return false;
            }
            k = k + 1;
        }
        if self.started != (self.joined_count == self.member_count) {
            return false;
        }
        if !self.started && !(self.current_round == 0 && self.contributed_mask == 0
            && self.paid_out_mask == 0) {
            return false;
        }
        if self.started && !(1 <= self.current_round && self.current_round <= self.member_count + 1) {
            return false;
        }
        if !mask_within(self.contributed_mask, self.member_count) || !mask_within(
            self.paid_out_mask,
            self.member_count,
        ) {
            return false;
        }
        proof {
            lemma_set_indices(self.paid_out_mask, self.member_count as nat);
        }
        if self.started && mask_to_indices(self.paid_out_mask, self.member_count).len() as u8
            != self.current_round - 1 {
            return false;
        }
        if self.current_round == self.member_count + 1 && self.contributed_mask != 0 {
            return false;
        }
        true
    }
}


/// `member`'s contribution to `old` is accepted, the round (if completed)
/// being settled at `slot`, and gives `new` and `out`; the member token
/// accounts it passed were the right ones.
pub open spec fn is_accepted_step(
    old: SavingsCircle,
    new: SavingsCircle,
    member: Key,
    slot: u64,
    out: Contribution,
) -> bool {
    &&& precheck_error(old, member, old.member_count as int) is None
    &&& settle_error(old, old.slot_of(member@)) is None
    &&& is_contributed(old, new, member, slot, out)
}

/// What one accepted contribution does to the masks: the payer's seat was
/// unpaid; a payment that does not complete the round adds one payer; one
/// that completes it was the last of the `n`, and the winner had not won
/// before and is the one seat added to the paid-out mask. The invariant is
/// kept.
pub proof fn lemma_accepted_step(
    old: SavingsCircle,
    new: SavingsCircle,
    member: Key,
    slot: u64,
    out: Contribution,
)
    requires
        old.wf(),
        is_accepted_step(old, new, member, slot, out),
    ensures
        new.wf(),
        0 <= old.slot_of(member@) < old.member_count,
        !has_bit(old.contributed_mask, old.slot_of(member@)),
        completes_round(old, old.slot_of(member@)) ==> {
            let w = winner_seat(old, slot);
            &&& count_set(old.contributed_mask, old.member_count as nat) == old.member_count - 1
            &&& 0 <= w < old.member_count
            &&& !has_bit(old.paid_out_mask, w)
            &&& forall|i: int|
                0 <= i < 16 ==> #[trigger] has_bit(new.paid_out_mask, i) == (has_bit(
                    old.paid_out_mask,
                    i,
                ) || i == w)
        },
        !completes_round(old, old.slot_of(member@)) ==> count_set(
            new.contributed_mask,
            new.member_count as nat,
        ) == count_set(old.contributed_mask, old.member_count as nat) + 1,
{
    let n = old.member_count as nat;
    let seat = old.slot_of(member@);
    let m = mask_with(old.contributed_mask, seat);
    lemma_same_seats(old, new);
    assert forall|i: int| 0 <= i < 16 implies #[trigger] has_bit(m, i) == (has_bit(
        old.contributed_mask,
        i,
    ) || i == seat) by {
        lemma_or_bit(old.contributed_mask, seat as u16, i as u16);
    }
    lemma_count_set_bit(old.contributed_mask, seat as u16, n);
    if completes_round(old, seat) {
        assert(bits_below(m, n));
        lemma_full_mask(m, n);
        lemma_count_all(m, n);
        let w = winner_seat(old, slot);
        lemma_set_indices(!old.paid_out_mask, n);
        let cands = candidates(old);
        let k = (slot as usize) as int % cands.len() as int;
        assert(cands[k] == w as u8);
        lemma_not_bit(old.paid_out_mask, w as u16);
        lemma_count_set_bit(old.paid_out_mask, w as u16, n);
        assert forall|i: int| 0 <= i < 16 implies #[trigger] has_bit(new.paid_out_mask, i) == (
        has_bit(old.paid_out_mask, i) || i == w) by {
            lemma_or_bit(old.paid_out_mask, w as u16, i as u16);
        }
        assert forall|i: int| #[trigger] has_bit(0u16, i) implies i < n by {
            lemma_zero_bit(i as u16);
        }
    }
}

} // verus!
