//! Device drivers: the PIT, the local APIC and I/O APIC, and the ACPI tables.
pub mod acpi;
pub mod apic;
pub mod pit;
