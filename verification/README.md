# ethercat

Streams over EtherCAT: datagrams with command, index,
address, length and working counter, several to a frame, and CANopen over
EtherCAT through the slaves' mailboxes for what is larger than one datagram.
The library is written in Verus and proved against the contracts it states.

- `src/`: the library. `datagram`, `mailbox` and `sdo` are the wire formats;
  `slave` and `segment` a ring of slaves in process; `client`, `transport`,
  `poll`, `call`, `transfer` and `stream` the master. Public proof functions named
  `law_..` state what holds across functions.
- `tests/`: the library run on concrete values.
- `app/`: the master on a real link, and the ring as a link. It waits, locks and
  speaks to the carrier, and leaves every decision to the library.
