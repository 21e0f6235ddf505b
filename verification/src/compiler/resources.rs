use vstd::prelude::*;

verus! {

/// The assembly program that a compiled constant is placed into.
pub const TEMPLATE: &'static str = "  .section .text\n  .globl _start\n\n_start:\n  ## saida do compilador deve ser inserida aqui\n\n  mov %rax, %rdi\n  mov $60, %rax\n  syscall\n";

/// The line of the template that the compiled code replaces.
pub const MARKER: &'static str = "  ## saida do compilador deve ser inserida aqui";

} // verus!
