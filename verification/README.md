# puffyrs

Helpers for BSD userland tools, verified with Verus: backslash-escape
processing (`echo -e`), a short-flag parser, `strtonum(3)`, `vis(3)` byte
rendering, and the decision cores of `echo`, `cat`, `chroot -g` and `watchdogd`.

- `src/` is the verified library; each public function states its result in its
  contract (except `sig::raised`, whose result is whatever a signal handler last
  stored), and the proof functions (`lemma_*`) state laws that hold across calls.
- `app/` is the unverified shell: stdout/stderr helpers, `execvp`, the
  `signal_watch!` macro, and a multi-call binary that runs as `echo` or `cat`
  depending on the name it is invoked under.
- `tests/` runs the library on concrete inputs.
