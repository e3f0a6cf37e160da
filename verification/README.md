# lyricsflip

The rules of LyricsFlip, a lyric-guessing game on Soroban, and of its
reward NFT, written as state machines in Verus and proved against their
contracts.

## Layout

- `src/types.rs`, `src/errors.rs`, `src/events.rs`: the values the
  contracts exchange, their error codes and their events.
- `src/game.rs`: the game contract. `GameState` is its storage as
  mathematical values; every entry point of `LyricsFlip` states, over
  that view, which error it returns on which input and how the state
  changes on success.
- `src/random.rs`: selection of distinct card numbers from a seed and the
  ledger by a partial Fisher–Yates shuffle driven by SHA-256 digests
  (computed by `soroban-sdk`).
- `src/scoring.rs`: the winners of a round.
- `src/question.rs`, `src/text.rs`: multiple-choice question cards and the
  text helpers they use (decimal years, the option shuffle).
- `src/nft.rs`: the minter-gated reward NFT.
- `src/laws.rs`: properties that span several entry points or hold in
  every reachable state (winner selection, finalization, scores against
  the answer log, open-round and page bounds, the card catalogue,
  ownership transfer, NFT balances).
- `tests/`: scenarios run against the compiled library.
- `app/`: the host side: caller authorization, ledger reads, account
  handles, the reward mint across contracts and code upgrades.

Accounts are numeric handles (`Address`), ledger facts arrive as a
`Ledger` value, and entry points return `Result` with the contracts' error
codes.
