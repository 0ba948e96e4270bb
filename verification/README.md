# logcompress

Query-aware log compression: given a natural-language query and a log file,
keep the lines that matter (scored matches, error lines, lines sharing a trace
with a hit) with a few lines of context around each.

The library under `src/` is written in Verus and verified; every public
function carries a contract.

- `context` — context windows around hit lines, merging of overlapping or
  adjacent windows, and the lines the merged windows cover.
- `tokens`, `fast_index` — byte-level tokenization into FNV-1a hashes (ASCII
  case folded) and the inverted index over those hashes.
- `index` — the string-keyed inverted index.
- `lines`, `text`, `json`, `parser` — line splitting, character helpers,
  JSON object members (read with serde_json), format detection, tokenization
  into strings, level and boosted-field extraction, error-line detection.
- `pipeline` — the selection steps of compression that involve no score
  arithmetic: query term counts, index building, boosted-field matching,
  error lines to add, trace expansion, and the output plan.
- `rng`, `numfmt`, `render`, `dataset`, `planner`, `ground_truth` — the
  benchmark dataset: a xorshift generator, number formatting, flat JSON
  objects, incident and ordinary log lines, the placement of incidents, and
  the ground-truth queries.

`app/` holds what stays outside the verified library: the command-line
interface, file and standard-input reading, the floating-point TF-IDF scoring
and ranking that `compress` combines with the verified steps, and the writer
of the benchmark dataset files.
