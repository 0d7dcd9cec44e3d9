# phinetwork

The PhiNetwork chatbot learns response classes from text examples with curve
learners over product terms of word features. This crate holds its discrete core,
verified with Verus: every function in `src/` carries a contract that the verifier
proves, and the laws of the library are proof functions beside them.

- `src/` — the verified library: tokens, vocabulary and message features
  (`chatbot`, `features`), the memory file (`memory`), commands (`commands`), the
  prediction chain (`chain`), product terms (`terms`, `phinetwork`), sparse term
  keys and phi expressions (`sparse_phi`, `phi_expression`), phil (`phil`), the
  name/age dataset and its model file (`age`, `age_snapshot`), and the key shares
  of the `phi_all` points (`phi_key`, `recovery`). The calls into `sha2` and
  `bls12_381` are the trusted items of `crypto`.
- `app/` — the command-line program: the floating-point curve learners and
  classifiers, files and the interactive loop.
- `tests/` — tests of the library on concrete values.
