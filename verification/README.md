# oxide_forge

A verified library for tensor work and small neural networks on a CUDA device.

The library never touches a device. A `CudaRuntime` records *commands*: allocate,
copy, upload, launch a kernel, wait for a stream. A driver performs them in order.
What a sequence of commands means is a mathematical function from memory to memory,
and every operation of the library says in its contract what the device holds
afterwards, which buffers are alive, and on which stream the work was issued.
Operations only record: no command that waits for the driver is lost, and what the driver
has taken together with what still waits is all that was ever issued
(`src/cuda/runtime.rs`). Elements are kept as the expressions that compute them, so a contract fixes which
arithmetic happens and in which order, not what it rounds to.

Work may be spread over several streams. `src/cuda/order.rs` says which commands wait for
which; operations state that work which was in order stays in order, so that no two
commands that meet in a buffer run against one another.

Some laws read the expressions in exact arithmetic: what a block of threads folds is the
fold of all elements (`src/cuda/device/launches.rs`), the gradient of a loss is its
derivative (`src/net/derivative.rs`), and the stages of a schedule meet
(`src/graph/schedule.rs`).

* `src/cuda` - the command language and its meaning, the buffer pool, spans, vectors
  and matrices, the work of single threads inside kernels, and the matrix products
  that the threads of a launch make together.
* `src/net` - layers, losses, multilayer perceptrons, gated and transformer blocks,
  the small nodes they are made of, and the layout of their parameters in a file.
* `src/graph` - descriptions of graphs, their shapes, initialization, running and
  training them, and learning-rate schedules.
* `tests` - a machine on the host that performs the commands with real numbers.
* `app` - the driver for a CUDA device, kernels in floating-point arithmetic, the
  serialized form of model descriptions, and small programs.
