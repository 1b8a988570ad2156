# tect

`tect` reads a repository of image declarations (`repo.kdl`, image files,
`modules/*/module.kdl`), checks them and works out what an image is built
from. This crate is the library that does so, written in Verus: every
function under `src/` carries a contract that Verus proves.

## What is verified

- Parsing, in `src/parse/`: the repository, image and module grammars and
  what each raises, from the nodes the KDL parser gives. Each reader taking
  text has a twin taking the parsed nodes (`Module::parse_nodes`,
  `List::parse_nodes`, `pins_of`, `sources_of`, `summary_of`,
  `satisfies_in`, `workflows_span_in`).
- The graph, in `src/module.rs` and `src/order.rs`: build order, the
  dependency and provider checks, collected files and where each
  contribution is staged.
- Options, assets and remotes, in `src/model/`.
- Keys, in `src/key.rs`: which key a command works on, that a key on disk
  is never overwritten, what a recorded public half must look like.
- The installer's decisions: `src/install.rs` (layouts, encryption rows,
  crypttab), `src/form.rs` (the form's step function), `src/block.rs`
  (which disks are offered), `src/recipe.rs` (the recipe the answers fill
  in, and reading a payload's recipe and `lsblk`'s output).
- Prompts, in `src/prompt.rs`: what each question answers from a flag,
  a script or its default, and how far through a script it reads.

Laws that span calls stand as public proof functions beside the functions
they are about (for example `lemma_order_is_permutation`,
`lemma_one_issue_per_shared_name`, `lemma_every_later_collector_is_said_once`,
`lemma_at_text_reads_back`).

## What is not

The KDL parser and a few `std` string functions are called through trusted
wrappers in `src/parse/kdl.rs`, `src/text.rs` and `src/key.rs`, whose
contracts say what the outside code returns.

`app/` is the command-line program around the library: argument parsing,
reading the repository and `/sys/block` off the disk, running key
generators, and printing. It decides nothing the library could.
