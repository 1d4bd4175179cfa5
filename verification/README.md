# backcheck

backcheck reads the transcript of a coding agent's session and holds what the agent *said*
against what it *ran*. The library is written in Verus: the functions in `src/` are proved to meet
their contracts, except for the few that call other crates or std, whose contracts are believed.
The properties that span functions are proved beside them as `law_*` proof functions.

## How a session is read

1. `transcript` turns the recorded lines into tool calls, their results and the agent's prose.
2. `claims` finds the statements in the prose that can be checked ("all tests pass",
   "committed", "created `src/a.rs`").
3. `runners` recognises checks among shell commands and reads their outcome out of what they
   printed; `evidence` gathers these with the files written and the git operations.
4. `verify` holds each claim against the evidence recorded before it.
5. `tamper` looks for tests that were weakened rather than fixed.
6. `report` renders the result, `hook` answers as a Stop hook and edits the agent's settings, and
   `session` chooses among stored transcripts.

`text`, `lists`, `json` and `pattern` are what these are built on. What is believed stands in three
of them: what the `regex` crate computes in `pattern`, what `serde_json` computes in `json`, and of
std `str::to_lowercase` and `String::push` in `text`.

## Layout

- `src/` – the verified library
- `tests/` – its tests
- `app/` – the command line: arguments, files, git, and printing

The command line looks for the agent's settings and sessions in the directory that the
environment variable `BACKCHECK_AGENT_DIR` names.
