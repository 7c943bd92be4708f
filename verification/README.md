# agent_replay

Record, deterministically replay, diff, and fork agent sessions. A session
transcript (one JSON record per line, linked into a tree by `parentUuid`) is
normalized into a run: the active root-to-leaf path of message records, each
step carrying a content hash over its role and blocks. Replay recomputes the
hashes and the run digest, diff compares runs step by step by hash, fork keeps
a prefix and seeds a new prompt, and check asserts rules over a run for CI.

## Layout

- `src/` is the verified library. Each public function states what it
  returns in its contract, and the properties that span functions stand as
  proof functions:
  - `model.rs`: roles, blocks, steps and runs; step hashes and the run
    digest (SHA-256 through the `sha2` crate), integrity and counts.
  - `json.rs`: the JSON values the transcript logic reads (parsed by
    `serde_json`), and their canonical form with sorted keys.
  - `transcript.rs`: from the lines of a transcript to a run: record
    extraction, parent bridging through non-message records, the active path.
  - `replay.rs`, `diff.rs`, `fork.rs`, `check.rs`: the four operations.
  - `sessions.rs`: the newest-first order of session files.
  - `summary.rs`: the preview of a run's first prompt and the choice of reader
    for a run file.
  - `strings.rs`: character and byte helpers with their specifications.
- `tests/` runs the library on concrete values.
- `app/` is the command line: argument parsing, files, `.replay` documents
  and `--json` output through serde.

The `ls` and `record` commands look for session transcripts in the directory
named by the `AGENTREPLAY_PROJECTS_DIR` environment variable, which holds one
subdirectory of `.jsonl` transcripts per project.
