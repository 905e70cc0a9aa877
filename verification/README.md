# grcov

A code coverage aggregator: it reads coverage data (gcno/gcda files, gcov
text and JSON, lcov tracefiles, JaCoCo XML reports, raw LLVM profiles),
merges it by source file, filters and rewrites the paths, and writes reports
(lcov, Cobertura, covdir, coveralls, markdown, HTML and others).

The library in `src/` is written in Verus: its functions carry `requires` /
`ensures` contracts over spec models and are proved by the verifier. It holds
the parsers, the gcno/gcda reader and the arc-count deduction (with the
circuit search), the merging of results, the filters, the path rewriting, the
report models and the bytes of the Cobertura report. Calls into outside crates
(quick-xml, regex, globset, semver, smallvec, md-5, flate2, symbolic-demangle)
sit behind small trusted wrappers whose contracts state what those crates do.

`app/` is the command-line program around the library: argument handling,
walking directories and archives, running `gcov` and the LLVM tools, reading
and writing files, and the parts that compute with floating point.

`tests/` holds the tests, run against the compiled library.
