# lama-inpaint

Inpainting with the LaMa FFC ResNet generator: the pixels that a mask marks are
filled in, and all others come through untouched.

`src/` is the engine's verified core. Verus verifies its functions against the
contracts they carry, but for five thin wrappers around the `png` crate and the
standard library and one specification of `String::push`, whose contracts are
believed; each says so.

| module | what it holds |
| --- | --- |
| `args` | the command line, where weights are looked for, and the path of their index |
| `text` | searching, trimming, splitting, decimal numbers, the order of names |
| `weights`, `document` | the weight index, the blob, and tensors inside it |
| `codec`, `image` | PNG through the `png` crate, images, masks, reflection |
| `grid` | row-major positions |
| `inpaint` | padding, the network's input, compositing, the choice of an engine |
| `model` | the plan of a generator |
| `cuda` | recorded device work: commands, kernels and their arguments |
| `fft`, `ops`, `engine` | what transforms, operations and the forward pass record |
| `layout`, `staging`, `loader` | reordered weights, packed tensors, loading a model |
| `setup`, `pool` | bringing the device up, and its memory pool |
| `safety`, `lifetime` | what every recorded program keeps |
| `aliasing` | what an evaluation writes |
| `extents`, `bounds`, `placement` | how far operations, passes and programs reach |

The core does not talk to a device. It records the device's work as a program, and
`lifetime::program_is_safe` shows of every such program that it uses a buffer only
while it is allocated, weights only once they are copied to the device and a
transform only after its plan; `safety::weights_go_up_once` adds that it copies the
weight blob at most once, and the staged tensors at most once. Of a program that is recorded to its end it shows
that it copies one result to the host and gives back every block it takes; one that
stops on a fault stops there, and its blocks are given back by whoever performs it.
`aliasing` shows that an evaluation writes only blocks that it allocates itself, and
`placement::program_stays_within` that a program whose layers match each other stays
within its blocks.

`app/` is the worker around it: files and standard streams, the driver and its
libraries opened at run time, and arithmetic on floats. It reads the kernel image
`kernels.fatbin` from beside the executable.

`tests/` runs the library.
