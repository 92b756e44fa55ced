# krabka-client-consumer

A Kafka consumer client in Verus.

- `src/` is the library. It holds the state of a consumer and of its group
  membership and makes every decision: which partitions to fetch and from where,
  which records of an answer to return, how positions move and reset, when to
  join the group and what a rebalance does. Each function states in its contract
  what it returns and changes, and Verus proves it. The functions named `law_...`
  state what holds across functions, such as that no position moves past a record
  that was not returned.
- `app/` performs the decisions with tokio: it sends the requests over a
  `Transport`, waits for answers and timers, and runs the group task and the
  callbacks of the application.
- `tests/` runs the library on concrete values.

Time is counted in nanoseconds from the start of the consumer. Brokers are named
by their ids, and -1 is the bootstrap connection. The only outside type in the
library is `bytes::Bytes`, which carries keys, values and subscriptions without a
copy; `src/records.rs` states what is trusted of it.
