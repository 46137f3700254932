# txqueue

A queue of Ethereum transactions that wait to be put into a block, with its behaviour stated in
contracts and proved by Verus. Beside it stand two smaller parts of a node: the provider that answers
the requests of light clients, and the user defaults that a node remembers between launches.

- `src/transaction_queue.rs` holds the queue. Each method says what it does to the abstract state in
  `src/queue_model.rs`.
- `src/queue_marks.rs` says which of a node's own transactions each operation marks, and
  `src/queue_lists.rs` how the list of them is reordered by that.
- `src/queue_laws.rs` states what holds of the queue as a whole: that the numbers of pending, waiting and
  known transactions add up, what limits drop and what they spare, when a transaction replaces another,
  what a new state nonce leaves, and so on.
- `src/transaction_set.rs`, `src/order.rs`, `src/order_set.rs` and `src/gas_price_queue.rs` keep
  transactions by sender and nonce, by priority and by gas price.
- `src/local_transactions.rs` keeps what became of a node's own transactions, in a linked hash map.
- `src/provider.rs` answers light clients, with lists encoded as `src/rlp_list.rs` says.
- `src/user_defaults.rs` reads and writes user defaults, as objects in JSON (`src/json.rs`).
- `app/` loads and saves user defaults in files.
