# live-mutex-mills

A leaderless, quorum-based distributed lock service, verified with Verus.

`src/` is the library. Every function in it is verified against its contract, and
what the protocol guarantees as a whole is stated and proved as `law_*` functions:

- mutual exclusion, also among the survivors of crashes (`exclusion`);
- deadlock freedom, progress of survivors, and service of every waiting request
  (`progress`, `service`, `fairness`);
- fence tokens that grow from holder to holder, and the tokens that voters have
  recorded as a lower bound for every later one (`fencing`);
- what simulations report: one holder at a time, growing tokens, every request once,
  and the same again from the same seed (`reports`, `turns`);
- one vote per lock at a time, request ids that are never used again, invalid messages
  that change nothing (`history`);
- leases that hold for live nodes and lapse for crashed ones (`leases`, `failover`);
- quorums that intersect (`quorum`);
- messages that read back from the wire (`codec`), streams that keep their order
  (`transport`);
- semaphores and read-write locks that keep their limits (`slots`), holder tokens that
  release once (`tokens`), permits that have one holder over a whole session
  (`session`);
- composite locks that never wait in a circle (`composite`) and conflict where they
  overlap (`overlap`).

`app/` is the daemon `lmxd` around the library: sockets, threads, the clock, standard
input and the environment. The flags of its command line are read by the C library
`flags2env`, which has to be linked to it; the contract that it falls back to is given
to the build in the variable `LMX_EMBEDDED_CLI_FLAGS`.

`tests/` runs the library.

## Running a cluster

Start one process per node; the id indexes the address list:

```
lmxd --client-http 127.0.0.1:9200 --client-tcp 127.0.0.1:9300 \
  0 127.0.0.1:9100 127.0.0.1:9101 127.0.0.1:9102
```

Type `acquire <lock>`, `release <lock>` or `quit`, or use a client listener:

```
POST /locks/report-A/acquire
=> {"ok":true,"lock":"report-A","fence":1,"holder":"h0000000000000001"}

ACQUIRE report-A
ACQUIRED report-A fence=1 holder=h0000000000000001
RELEASE h0000000000000001
RELEASED report-A
```

## What is trusted

`serde_json` and `rmp_serde` write and read structured values behind the wrappers in
`json`; some errors of `std` and `serde_json`, and paths, are carried along unseen;
`String::push` and `String::from_utf8` are specified in `text`. Everything else
is proved.

## Token durability

A fence token is durable once its `Confirm` has reached a quorum. A holder that
crashes between locking and that moment can have its token used again by the next
holder.
