# rust_hypervisor

A prototype hypervisor's paging system that runs in user space, with its
bookkeeping verified by Verus.

The hypervisor keeps a *physical book* of its memory: free chapters (runs of
pages) and used chapters, each by start address and page count, and a
*virtual book* that maps the virtual addresses it hands out to the chapters
behind them. Allocation takes the lowest-addressed free chapter that is large
enough, or, in hierarchical mode, gathers free chapters in address order until
they hold enough pages; every gathered chapter but the last is used whole, and
only the last is split, so exactly the requested pages become used. Freeing
merges the freed chapters with their free neighbours.

Layout:

- `src/` — the verified library.
  - `rust_hypervisor/paging.rs`: allocation, freeing, initialization, and the
    laws that tie them together (freeing undoes an allocation; an allocation
    uses exactly the pages it needs; pages are conserved; freeing merges).
  - `rust_hypervisor/paging/phys_book.rs`: the physical book, its model and
    its consistency invariant; `book_laws.rs` proves the invariant kept.
  - `rust_hypervisor/paging/listing.rs`: listings of pages in address order.
  - `rust_hypervisor/setup.rs`, `hypervisor.rs`: the hypervisor and its
    initialization.
  - `user_space_arch/`: the user-space architecture.
  - `server.rs`: the command-line server's decisions (how each command is
    read and answered) and timing statistics.
- `app/main.rs` — the command-line server: input, output, and the global
  hypervisor.
- `tests/` — tests of the library.

Commands: `alloc <size>`, `free <address>`, `print help`,
`print phys_pages [free|used|all]`, `print virt_pages`, `print pages`,
`verbose`, `hierarchical`, `benchmark`, `quit`. A file of commands can be
given as the first argument.
