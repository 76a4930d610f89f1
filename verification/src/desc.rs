//! Descriptor tables: the GDT, the IDT and the TSS, and what the interrupt handlers decide.
pub mod gdt;
pub mod idt;
pub mod isr;
pub mod tss;
