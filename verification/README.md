# altered_state

Snapshots of an Active Directory domain, compared against a scenario's snapshot, and the
PowerShell that brings the directory from one to the other.

- `src/` is the verified library: search entries become snapshot objects (`snapshot`,
  `schema`, `results`), two snapshots are compared into remediation actions
  (`comparison`), actions become PowerShell commands (`remediation`), and the scenario
  configuration, state, hooks and command decisions (`config`, `models`, `context`,
  `cleanup`, `commands`, `hooks`) are kept consistent. The laws proved about them stand
  beside the functions (`law_*`), and in `remediation_laws`.
- `app/` is the program around it: the command line, the LDAP search, the files, the
  PowerShell processes and the web interface.
- `tests/` runs the library on concrete values.
