pub mod apic;
pub mod overrides;
