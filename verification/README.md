# dma_modeling

Finds out, from traces of emulated firmware, which registers of a target point to DMA buffers or DMA
descriptors, and turns what was found in many traces into one configuration for the emulator.

- `src/` is the library. It is verified with Verus, but for the calls into other crates (see below).
  - `hoedur`, `mem_view`, `mem_map`: accesses, the history of memory, the map of memory. The laws of
    reading back what was written stand in `mem_laws`.
  - `fuzzware`: the traces and configurations of the emulator.
  - `dma_analysis`: the analysis of one trace. `detect_dma` is its entry; its result is a
    `DmaAnalysisSnippet` of `dma_snippet`.
  - `summary`: the summary of many snippets. `summarize_snippets` is its entry; its result is a
    `DmaConfig` of `dma_config`.
  - `tables`: hash tables and sets, whose order is left open in all contracts.
- `tests/` runs the library on concrete values.
- `app/` is the command line program around the library: arguments, files and serialization.

Calls into other crates stand behind functions whose contracts are believed without proof. Each of
them names the function that it calls and says what is claimed of it.
