//! Addresses that the program and its clients derive: the circle and vault
//! accounts of the program, and each member's token account.
use anchor_lang::solana_program::pubkey::Pubkey;
use vstd::prelude::*;

use crate::circle::SavingsCircle;
use crate::key::Key;

verus! {

/// The address the savings-circle program is deployed at.
pub open spec fn program_id_bytes() -> Seq<u8> {
    seq![
        43u8, 124, 81, 228, 241, 139, 11, 241, 186, 58, 204, 154, 87, 167, 97, 155,
        121, 69, 48, 130, 183, 87, 8, 89, 23, 58, 142, 61, 37, 3, 241, 98,
    ]
}

/// The first seed of a circle's address: the bytes of "circle".
pub open spec fn circle_seed() -> Seq<u8> {
    seq![99u8, 105, 114, 99, 108, 101]
}

/// The first seed of a vault's address: the bytes of "vault".
pub open spec fn vault_seed() -> Seq<u8> {
    seq![118u8, 97, 117, 108, 116]
}

/// The byte strings that a list of seeds holds.
pub open spec fn seed_views(seeds: Seq<Vec<u8>>) -> Seq<Seq<u8>> {
    seeds.map_values(|s: Vec<u8>| s@)
}

/// The address, with its bump seed, that `Pubkey::try_find_program_address`
/// of solana-pubkey finds for these seeds under this program, or `None` when
/// it finds none.
pub uninterp spec fn program_address(seeds: Seq<Seq<u8>>, program_id: Seq<u8>) -> Option<(Seq<u8>, u8)>;

/// Calls `Pubkey::try_find_program_address` of solana-pubkey. The contract
/// claims only that the answer is a function of the seeds and the program id,
/// named `program_address`.
#[verifier::external_body]
fn find_program_address(seeds: &Vec<Vec<u8>>, program_id: &Key) -> (r: Option<(Key, u8)>)
    ensures
        match program_address(seed_views(seeds@), program_id@) {
            Some((address, bump)) => r matches Some((k, b)) && k@ == address && b == bump,
            None => r is None,
        },
{
    let seeds: Vec<&[u8]> = seeds.iter().map(|s| s.as_slice()).collect();
    Pubkey::try_find_program_address(&seeds, &Pubkey::new_from_array(program_id.bytes)).map(
        |(address, bump)| (Key { bytes: address.to_bytes() }, bump),
    )
}

/// The address the savings-circle program is deployed at.
pub fn program_id() -> (k: Key)
    ensures
        k@ == program_id_bytes(),
{
    let k = Key {
        bytes: [
            43u8, 124, 81, 228, 241, 139, 11, 241, 186, 58, 204, 154, 87, 167, 97, 155,
            121, 69, 48, 130, 183, 87, 8, 89, 23, 58, 142, 61, 37, 3, 241, 98,
        ],
    };
    assert(k@ =~= program_id_bytes());
    k
}

/// The address of the circle that `creator` opened under `circle_id`: the
/// program address of the seeds "circle", the creator's key and the
/// little-endian bytes of the id. `None` when no such address exists.
pub fn circle_pda(creator: &Key, circle_id: u64) -> (r: Option<Key>)
    ensures
        match program_address(
            seq![circle_seed(), creator@, vstd::bytes::spec_u64_to_le_bytes(circle_id)],
            program_id_bytes(),
        ) {
            Some((address, _)) => r matches Some(k) && k@ == address,
            None => r is None,
        },
{
    let mut seeds: Vec<Vec<u8>> = Vec::new();
    seeds.push(vec![99u8, 105, 114, 99, 108, 101]);
    seeds.push(creator.to_vec());
    seeds.push(vstd::bytes::u64_to_le_bytes(circle_id));
    assert(seed_views(seeds@) =~= seq![
        circle_seed(),
        creator@,
        vstd::bytes::spec_u64_to_le_bytes(circle_id),
    ]);
    match find_program_address(&seeds, &program_id()) {
        Some((address, _)) => Some(address),
        None => None,
    }
}

/// The address of the token vault of the circle at `circle`: the program
/// address of the seeds "vault" and the circle's key. `None` when no such
/// address exists.
pub fn vault_pda(circle: &Key) -> (r: Option<Key>)
    ensures
        match program_address(seq![vault_seed(), circle@], program_id_bytes()) {
            Some((address, _)) => r matches Some(k) && k@ == address,
            None => r is None,
        },
{
    let mut seeds: Vec<Vec<u8>> = Vec::new();
    seeds.push(vec![118u8, 97, 117, 108, 116]);
    seeds.push(circle.to_vec());
    assert(seed_views(seeds@) =~= seq![vault_seed(), circle@]);
    match find_program_address(&seeds, &program_id()) {
        Some((address, _)) => Some(address),
        None => None,
    }
}

/// The address of the classic token program.
pub open spec fn token_program_id_bytes() -> Seq<u8> {
    seq![
        6u8, 221, 246, 225, 215, 101, 161, 147, 217, 203, 225, 70, 206, 235, 121, 172,
        28, 180, 133, 237, 95, 91, 55, 145, 58, 140, 245, 133, 126, 255, 0, 169,
    ]
}

/// The address of the associated token account program.
pub open spec fn associated_token_program_id_bytes() -> Seq<u8> {
    seq![
        140u8, 151, 37, 143, 78, 36, 137, 241, 187, 61, 16, 41, 20, 142, 13, 131,
        11, 90, 19, 153, 218, 255, 16, 132, 4, 142, 123, 216, 219, 233, 248, 89,
    ]
}

/// The associated token account of `wallet` for `mint` under the classic
/// token program: the program address of the seeds wallet, token program and
/// mint under the associated token account program, when one exists.
pub open spec fn associated_token_address(wallet: Seq<u8>, mint: Seq<u8>) -> Option<Seq<u8>> {
    match program_address(
        seq![wallet, token_program_id_bytes(), mint],
        associated_token_program_id_bytes(),
    ) {
        Some((address, _)) => Some(address),
        None => None,
    }
}

/// The associated token account of `wallet` for `mint` under the classic
/// token program, or `None` when no program address exists for it.
pub fn associated_token_account(wallet: &Key, mint: &Key) -> (r: Option<Key>)
    ensures
        match associated_token_address(wallet@, mint@) {
            Some(address) => r matches Some(k) && k@ == address,
            None => r is None,
        },
{
    let token_program = Key {
        bytes: [
            6u8, 221, 246, 225, 215, 101, 161, 147, 217, 203, 225, 70, 206, 235, 121, 172,
            28, 180, 133, 237, 95, 91, 55, 145, 58, 140, 245, 133, 126, 255, 0, 169,
        ],
    };
    let associated_token_program = Key {
        bytes: [
            140u8, 151, 37, 143, 78, 36, 137, 241, 187, 61, 16, 41, 20, 142, 13, 131,
            11, 90, 19, 153, 218, 255, 16, 132, 4, 142, 123, 216, 219, 233, 248, 89,
        ],
    };
    assert(token_program@ =~= token_program_id_bytes());
    assert(associated_token_program@ =~= associated_token_program_id_bytes());
    let mut seeds: Vec<Vec<u8>> = Vec::new();
    seeds.push(wallet.to_vec());
    seeds.push(token_program.to_vec());
    seeds.push(mint.to_vec());
    assert(seed_views(seeds@) =~= seq![wallet@, token_program_id_bytes(), mint@]);
    match find_program_address(&seeds, &associated_token_program) {
        Some((address, _)) => Some(address),
        None => None,
    }
}

/// The token account that the member in seat `i` must pass: its associated
/// token account for the circle's mint.
pub open spec fn member_token_address(c: SavingsCircle, i: int) -> Option<Seq<u8>> {
    associated_token_address(c.member(i), c.mint@)
}

/// The associated token accounts of the seated members for the circle's
/// mint, in seat order; `None` when one of them has no address.
pub fn member_token_accounts(circle: &SavingsCircle) -> (r: Option<Vec<Key>>)
    requires
        circle.member_count <= 10,
    ensures
        match r {
            Some(v) => v@.len() == circle.member_count && forall|i: int|
                0 <= i < circle.member_count ==> #[trigger] member_token_address(*circle, i)
                    == Some(v@[i]@),
            None => exists|i: int|
                0 <= i < circle.member_count && #[trigger] member_token_address(*circle, i)
                    is None,
        },
{
    let mut r: Vec<Key> = Vec::new();
    let mut i: u8 = 0;
    while i < circle.member_count
        invariant
            i <= circle.member_count <= 10,
            r@.len() == i,
            forall|j: int|
                0 <= j < i ==> #[trigger] member_token_address(*circle, j) == Some(r@[j]@),
        decreases circle.member_count - i,
    {
        match associated_token_account(&circle.members[i as usize], &circle.mint) {
            Some(address) => r.push(address),
            None => {
                assert(member_token_address(*circle, i as int) is None);
                return None;
            },
        }
        i = i + 1;
    }
    Some(r)
}

} // verus!
