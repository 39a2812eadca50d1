//! Distributed epoch-based reclamation, modelled and verified.
//!
//! The crate captures the reclamation engine of the DEBRA scheme: a global
//! wrapping epoch counter, per-thread announcements (epoch plus an
//! active/quiescent flag packed into one word), a registry of live threads,
//! per-thread rings of three bag queues that quarantine retired records for
//! two full epochs, and an abandoned stack through which exiting threads hand
//! their leftover quarantine to survivors.
//!
//! Shared state is explicit: the process-wide singletons live in one
//! `Global` value and every thread's state in a `Local`, so each operation is
//! a function of those values and can carry a full contract. Records are
//! identified by their address; each carries a ghost stamp, the number of
//! epoch advances at the time it was retired, which lets the contracts state
//! the central safety property: a record is destroyed only after the epoch
//! has advanced at least two full steps past its retirement.
//!
//! The `process` module owns the shared state together with every live
//! thread and carries the two theorems of the scheme as invariants: the
//! global epoch never runs more than one advance ahead of an active
//! thread's announcement, and every record ever retired is accounted for
//! exactly once — destroyed, abandoned, or still in some thread's
//! quarantine.

pub mod config;
pub mod epoch;
pub mod global;
pub mod abandoned;
pub mod bag;
pub mod list;
pub mod local;
pub mod process;
pub mod retired;
pub mod sealed;
