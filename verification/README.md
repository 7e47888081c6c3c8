# rv64_system

The parts of an RV64 full-system emulator around its processor core, with
contracts that Verus proves: the `virt` machine and its devices, the network
proxy, the in-memory file tree, and the bookkeeping of the just-in-time
compiler.

## Layout

`src/` is the verified library.

- Machine: `ram`, `dma`, `bus`, `plic`, `uart`, `virtio` and `virtio_laws` (what
  devices promise over whole queues and runs of calls), `dtb`, `board`, `boot`,
  `machine` (SBI, time, slices), `codecache` (decoded pages), `diag`, `elf`.
- Files: `memfs` (an in-memory tree and its tar loader), `hostfs` (decisions of
  an export of a host directory).
- Network: `http`, `wire`, `proxy`, `session` (one TLS session, with a record of
  what was done with it), `tunnel` (the proxy with its sessions), `tls` (keys,
  certificate plans, configurations), `egress`, `ws`.
- Compiler: `jit`, from which code is compiled (`builds`, `issue`), through
  what comes back (`landing`), to what runs next (`control`, `run`).
- `text`, `bytes` and `clock` hold what the others share.

Public proof functions named `law_..` state what holds across operations.

`app/` performs what the library decides: sockets, files, certificate signing
and the host's clock. The processor core, the code generator and the packet
stack come from the caller, through the traits in `app/outside.rs`.

`tests/` runs the library from outside.

## Trust

Contracts that are believed and not proved stand on the items marked
`external_body` in `text`, `clock`, `session`, `tls` and `tunnel`, and on one
`assume_specification` in `text`. Each names the function that it calls and what
it claims of it.
