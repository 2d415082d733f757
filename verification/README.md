# rar_os

Verified mechanisms of RAR OS, a small capability operating system: the
parts of its nuclei, services and SDK that decide something, written in Verus
with their contracts proved.

## Layout

- `src/` the library. Every module is verified; device and kernel
  interfaces appear as traits (`service::Link`, `session::Runtime`,
  `pio::Io`, `ne2k::Io`, `vault::Block`) so the logic above them is proved for every
  implementation's answers.
  - boot, memory and trap-gate rules: `foundation_model`, `platform_model`,
    `platform_kernel`, `modern_kernel`, `pe`, `image`, `generated`,
    `conformance`
  - capabilities, processes and staging: `modern_model`, `modern_support`,
    `staging`, `retirement`, `lab_images`, `desktop_roles`
  - IPC and wire formats: `channel`, `alpha_wire`, `alpha_protocol`,
    `alpha_transport`, `expansion_wire`, `le`
  - networking: `network`, `ne2k`, `service`
  - storage: `vault` (encrypted, versioned snapshots over a block device),
    `documents`, `store`, `transport`, `session`, `pio`, `platform_store`
  - desktop: `desktop_service`, `font`
  - `crypto` the only trusted code: SHA-256 and ChaCha20-Poly1305 from the
    RustCrypto crates, behind contracts that name their results.
- `tests/` executable tests of the library, one file per module.
- `app/` host tools: the FAT16 boot image builder and the release-0 binary
  fixture runner, both thin I/O around the library.

Laws that relate several operations are public proof functions whose names
start with `law_`.
