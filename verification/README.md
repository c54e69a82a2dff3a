# formwork

An OS-level sandbox for agent sessions: a capability blueprint (read, write, exec, net, MCP
tools) compiled into what the host kernel can enforce — Landlock and seccomp on Linux, Seatbelt on
macOS — for a process and every child it spawns, plus an MCP gateway that shades tools, resources
and prompts.

The policy core is verified with Verus:

- `src/` — the library. Path patterns and their coverage, canonical pattern sets, blueprints and
  their layering and narrowing, the credential catalog and its floor, the compiler and its
  fidelity report, the Landlock plan and the seccomp filter table, the gateway's routing and list
  filtering, the descriptor seam's protocol, the loader's rule surface and sigils, and the
  learning loop (denial records, proposals, acceptance). Each public function carries a contract;
  the laws (deny is terminal, the floor survives any grant, canonicalization is idempotent, a
  refusal is oracle-free, …) are public proof functions.
- `tests/` — tests of the library on concrete values.
- `app/` — the `formwork` command: files, the environment, processes, sockets, the async gateway
  pump, and the kernel calls that install confinement.
