# elevator_system

A distributed elevator controller whose decision logic is verified with Verus.

- `src/` is the verified library: order bookkeeping and assignment
  (`order_list`, `assignment`, `utils`), cluster membership (`membership`,
  `liveness`), the order manager as a state machine (`manager`), the
  reliable-delivery bookkeeping of the network layer (`peers`, `pending`,
  `network`), watchdog timers (`watchdog`), sensor edge detection (`poll`),
  the motor controller (`motor`), addresses and restart commands
  (`address`, `restart`), the backup process (`process`), the process-pair
  counter (`process_pair`), and the single-elevator controller
  (`single_elevator`).
- `app/` is the program around it: the tokio tasks, UDP sockets, the TCP
  client of the elevator server, the bincode datagram format, and the
  commands that restart remote nodes. Run `<id>` for an elevator node,
  `<id> --backup` for its backup, or `process-pair <local> <remote>`.
- `tests/` exercise the library on concrete scenarios.
