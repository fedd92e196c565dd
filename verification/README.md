# RocksQueue

A multi-tenant task queue over RocksDB. Every tenant has three column families:
waiting tasks, leased tasks and dead letters. Producers are held to backlog
quotas, workers get their slots by weighted fair sharing, noisy tenants are
slowed down, and leases that run out are taken back.

The library under `src/` decides and is verified with Verus. It is handed what
was read from the store and the clock, and answers with the writes to make and
the state that follows. The program under `app/` reads, writes, sleeps, serves
gRPC and HTTP, and does the floating-point smoothing; fractions reach the
library as bit patterns, which it compares as the numbers they stand for.

| Module | What it states |
|---|---|
| `task`, `keys` | tasks, their stored form, and keys whose order is the order of insertion |
| `policy` | quotas and retention of a namespace, and their stored form |
| `store` | reads, writes, and the store as a map of column families |
| `tenant` | enqueue under a quota, dequeue, settle, dead letters, provisioning, checkpoints |
| `tenant::isolation`, `delivery`, `outcome`, `recovery` | laws that span several operations |
| `reaper`, `compaction` | leases that ran out, entries that are too old |
| `scheduler`, `stats`, `fair_worker` | slots by weight and by traffic, and what a worker does with a task |
| `baseline`, `throttle`, `stats_daemon` | what is normal for a tenant, and slowing it down |
| `stats_store` | what is kept of traffic, throttles and baselines |
| `grpc` | the answers of the control plane |
| `codec`, `text`, `fraction`, `paths`, `tenant_map` | encoding, text, the order of fractions, paths, values by tenant |
| `config`, `ownership`, `error` | configuration, owners of tenants, errors |

Calls into `bincode`, `dashmap`, `hex`, `num_cpus`, `uuid` and a few functions
of the standard library stand behind small wrappers whose contracts are taken
on trust; each says in its doc comment what it claims.

Tests under `tests/` drive the library over a store in memory.
