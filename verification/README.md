# wakformat_loader

A data loader for chess training data, with a verified core. Files of games are
read over and over; the games are decoded into positions by several workers; the
positions are mixed in a bounded buffer, and each full buffer is shuffled and
handed to the trainer until it wants no more.

- `src/` is the library. Each module holds one part of the loader with its
  contracts: the settings (`loader`), the reading (`read`), the sharing out and
  decoding (`convert`), the mixing buffer (`buffer`), the random numbers (`rng`),
  the shuffle (`shuffle`), the decisions of the stages (`stages`) and the command
  line (`args`). `pipeline` proves what holds of all of them together: every
  position of every game comes out exactly once a pass, the loading never runs dry
  as long as the files hold a game that gives a position, every loading starts
  afresh, and each stage that is asked to stop passes that on. The channels and
  loops between the stages are not modelled: what is proved of stopping is one step
  of each stage.
- `app/` runs the stages on threads and does the input and output. It decodes
  games with the `wakformat` crate, which has to be supplied.
- `tests/` runs the library on concrete values.

What the library takes on trust is the behaviour of a few outside functions: the
draws of `oorandom::Rand64`, the size of `bulletformat::ChessBoard`, the clock, and
`Vec::capacity` and `Vec::reserve_exact`. Each is declared where it is called.
