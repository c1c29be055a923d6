# rust_kvm_os

Both sides of a small machine on Linux KVM, with its logic verified by Verus: a
monitor that boots a kernel straight into 64-bit long mode, and the guests that
run on it.

## Layout

- `src/`: the verified library.
  - `le`, `memory`: little-endian integers and guest memory as a slice of bytes.
  - `abi`: ports, memory map and the per-frame mailbox.
  - `paging`, `boot`, `kernel_image`, `vmm`: the identity map, the registers the
    vCPU starts with, the kernel image, and what the monitor does at each exit.
  - `runtime`, `text`: the guest's serial port, exit and end-of-frame requests.
  - `program`, `stack`, `syscall`, `linux`: a static Linux program in ring 0.
  - `canvas`, `paint`, `torus`: drawing, and the two interactive guests.
- `app/`: the monitor's `main` with its KVM calls, and the guests' hardware
  access and floating point.
- `tests/`: what the library does on concrete values.

The contract of every function is stated over sequences of bytes, port writes
and pixels. Proof functions named `law_*` state what holds across functions: that a
mailbox read gives back what was written, that the first GiB is mapped to
itself, that mappings handed to a program never overlap, that what a guest
prints is what the host shows.

The kernel image is parsed by the `object` crate. `kernel_image::parse_object`
is the one function whose contract is trusted rather than proved.
