//! The switchable application logger.
//!
//! The application keeps its root logger behind an atomic switch so that the
//! active drain can be replaced at runtime. Building a root logger reads the
//! environment and so stays with the application; this module installs a
//! freshly built root behind the switch.

use vstd::prelude::*;

verus! {

#[verifier::external_type_specification]
#[verifier::external_body]
#[verifier::reject_recursive_types(O)]
#[verifier::reject_recursive_types(E)]
pub struct ExAtomicSwitchCtrl<O, E>(slog_atomic::AtomicSwitchCtrl<O, E>);

#[verifier::external_type_specification]
#[verifier::external_body]
#[verifier::reject_recursive_types(O)]
#[verifier::reject_recursive_types(E)]
pub struct ExAtomicSwitch<O, E>(slog_atomic::AtomicSwitch<O, E>);

/// Relies on slog_atomic::AtomicSwitchCtrl::set: it replaces the drain behind
/// the switch with the given one.
#[verifier::external_body]
fn set_switch_drain(
    ctrl: &slog_atomic::AtomicSwitchCtrl<(), slog::Never>,
    root: slog_atomic::AtomicSwitch<(), slog::Never>,
) {
    ctrl.set(root)
}

/// The hack that re-initializes the app logger: the freshly built root drain
/// replaces whatever the application's switchable logger held.
pub fn recreate_app_logger(
    ctrl: &slog_atomic::AtomicSwitchCtrl<(), slog::Never>,
    root: slog_atomic::AtomicSwitch<(), slog::Never>,
) {
    set_switch_drain(ctrl, root);
}

} // verus!
