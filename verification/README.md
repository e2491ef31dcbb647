# vector_index

Vector indexes in files: IVF-FLAT and IVF-SQ files with their readers and writers, the
configuration and sizing of those and of IVF-PQ, IVF-RQ and DiskANN indexes, the sampling of
training vectors, and the planning of searches.

The library under `src/` is verified with Verus. It holds no floating-point arithmetic and
does no I/O: numbers are bit patterns, files are sequences of bytes, and what has to be read
or measured is asked for and handed back.

- `config`, `options`, `build_plan`, `size`, `pq`, `diskann`, `autotune`: from options to a
  checked configuration.
- `flat`, `sq`, `blocked`, `layout`, `varint`, `le`: what a file holds, and writing it.
- `flat_reader`, `sq_reader`, `sq_cache`, `flat_reads`, `sq_reads`, `read_plan`: reading it,
  in batches and piece by piece.
- `filter`, `top_k`, `probes`, `ivf_search`, `flat_scan`, `flat_search`, `sq_scan`, `sq_search`: from
  distances to the nearest rows.
- `search_params`, `progressive`, `reader`, `search_stats`: how wide a search is, how it goes
  on, and what it did.
- `trainer`, `draws`, `writer`, `inverted_lists`: collecting vectors and building an index.
- `flat_laws`, `sq_laws`, `search_laws`, `order_laws`, `batch_laws`, `filter_laws`,
  `range_laws`, `round_laws`, `plan_laws`, `cache_laws`, `option_laws`: what holds across
  these modules, such as that a file that was written gives back the rows that went into it,
  that a batch finds what single searches find, or that a cache does not change what is
  found.

`app/` is the ordinary Rust around the library: file access, distances, threads and training.
`tests/` holds the tests.
