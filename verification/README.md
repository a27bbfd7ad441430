# udp_ftp_stateless

One-way file transfer over UDP, with forward error correction so that a
receiver behind a data diode can rebuild files from whichever packets arrive.

- `src/` is the verified library (Verus):
  - `packet.rs`: the packet types and the filler packet;
  - `fountain.rs` and `rq.rs`: the Raptor (`raptor_code`) and RaptorQ
    (`raptorq`) codes as the library sees them, through trusted wrappers whose
    contracts state what the crates do;
  - `send/raptor.rs`: chunk size, cutting a file into chunks, and the packets of
    each chunk; `send/raptor_q.rs`: the packets of a file under RaptorQ;
  - `recv/raptor_vec.rs`: the Raptor receiver as a state machine (packet
    arrived, chunk decoded, merge finished) and chunk decoding;
    `recv/mod.rs`: the RaptorQ receiver and file decoding; `recv/merge.rs`:
    what merging a file's decoded chunks writes; `recv/models.rs`: the
    receiver's records.
- `app/` is the program: environment, sockets, files, tasks, and the bincode
  wire format of the packets.
- `tests/` runs the library on concrete files and packets.
