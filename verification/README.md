# solana_savings_circle

A rotating savings circle (ROSCA) as a verified state machine. A fixed group
of members each pay a fixed amount every round; once everyone has paid, the
whole pot goes to one member who has not won yet, picked from the current
slot, until every member has been paid out exactly once.

- `src/key.rs`: account keys as 32 raw bytes.
- `src/mask.rs`: the 16-bit member masks, their meaning as sets of seats,
  and `mask_to_indices`.
- `src/circle.rs`: the circle's state, its invariant `wf`, and the rules of
  `create_circle`, `join_circle`, `contribute_at_slot` and `close_circle`.
- `src/address.rs`: the program id, the circle and vault program addresses and
  the members' associated token accounts, all program derived addresses found
  by solana-pubkey's `try_find_program_address`.
- `src/runtime.rs`: `contribute`, which derives the token accounts and reads
  the runtime clock when a round is settled.
- `src/laws.rs`: properties that span the instructions.
- `app/`: the Anchor program (account validation, token transfers) and the
  command line client.
