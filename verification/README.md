# suho

A label-driven L3/L4 network-policy controller for plain Docker, with a core that is verified with
[Verus](https://github.com/verus-lang/verus).

Container labels and a file of host-wide policies declare which containers may talk to each other and
to the internet. Every reconcile compiles the current containers and policies into a ruleset and
replaces the nftables table `inet suho` with it. A direction is default-deny once a policy selects a
container for it, and a connection needs the consent of both ends.

## Layout

- `src/` is the library: policies and their text forms (`api`, `addr`, `text`), the compiler
  (`reconcile`), the nftables program (`enforce`), the flow log (`flowlog`), settings (`config`), the
  decisions of the daemon (`daemon`), metrics (`obs`) and the messages of the command line (`cli`).
  Everything in it carries a contract that Verus proves.
- `src/reconcile/semantics.rs` says what policies mean for a packet, and `src/reconcile/laws.rs`
  proves that a compiled ruleset does just that.
- `src/enforce/kernel.rs` says which messages of a transaction the kernel refuses and what its tables
  hold afterwards, and proves that it accepts the program of a ruleset and holds that ruleset and
  nothing else in the table. `src/enforce/nft_semantics.rs` says what such a table does with a packet,
  and proves that it lets through exactly the packets that the ruleset does. Both are models of
  nftables, as far as the programs use it.
- `app/` is the program: Docker, YAML, netlink, HTTP and the command line.
- `tests/` holds the tests of the library.

What is taken on trust is small and marked where it stands: parsing and printing of addresses and
network masks by `ipnetwork`, packet headers by `etherparse`, and a few functions of the standard
library.
