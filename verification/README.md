# diaric

The core of a speaker-diarization pipeline, with its contracts proved by Verus.

The library decides and computes; it performs no I/O and runs no model:

| Module | What it does |
|---|---|
| `float` | IEEE 754 numbers as bit patterns, with proved arithmetic |
| `aggregate` | speaker counts and Hamming-weighted sums over overlapping chunks |
| `cluster` | offline clustering, spectral and agglomerative; variational Bayes; initial linkage; constrained assignment |
| `embed` | embeddings, their similarity, log-mel features |
| `offline` | the flow from scores and raw embeddings to speaker labels |

Real numbers travel through the library as bit patterns, and contracts speak of their
arithmetic, rounding included. Where a step needs a transcendental function, a Fourier
transform, a matrix product, an eigendecomposition or a linkage, the caller passes
it in as a function, and the contract says what it was called on and what becomes
of its results.

`app/` is a front end on native numbers. It supplies those functions, the messages
of the errors and the serialisable options.
