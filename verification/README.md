# vst3_sample64

A verified bridge between VST3 hosts that pass 64-bit samples and plugins that process 32-bit
samples. Host samples are quantized once for the plugin. What quantizing drops is held back for as
long as the plugin's latency and then added to the 64-bit output, so that a plugin which passes its
input through hands the host its own samples back.

The library is written in Rust and verified with Verus. Samples are held as the bit patterns of
their IEEE 754 formats, and the arithmetic on them is proved against the definition of rounding to
the nearest value.

| Module | What it holds |
| --- | --- |
| `ieee` | what a bit pattern stands for, and which pattern is nearest to a number |
| `rounding` | rounding of a significand and an exponent to a pattern |
| `sample` | quantizing, widening, sums, differences, products and ceilings of samples |
| `carrier` | the residual of a host sample, and that it restores the sample |
| `host` | the buffers of a host for one block |
| `scratch` | the 32-bit channels of one bus |
| `residual` | the delay line for residuals |
| `layout` | the buses of a plugin, and how long the delay line has to be |
| `adapter` | the bridge itself |
| `laws` | what holds of the bridge as a whole |
| `class_id`, `plugin` | what a plugin declares about its VST3 form |

`app/` holds the unsafe edge: it copies between the raw pointers of a host and the library's
buffers.
