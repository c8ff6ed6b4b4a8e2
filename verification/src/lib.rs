//! A process-supervision library: per-application state machines, a
//! dependency-aware scheduler, health-check decision logic, resource-limit
//! composition, and the small text and timer utilities they rely on.
//!
//! The library is the decision core of a Unix service supervisor.  All
//! process spawning, signal delivery, and file or socket I/O is performed by
//! a thin driver around it; the functions here compute, from plain values,
//! what that driver must do next, and their contracts state exactly which
//! transition each event causes.

mod application;
mod health;
mod init;
mod limits;
mod stream;
mod text;
mod timers;

pub use application::{
    claim_next, claims_pid, in_exactly_one_state, lemma_claims_pid, lemma_state_exclusive,
    spec_app_pid, spec_tracked_pids, start_next, stop_next, stop_signal_target, AppState,
    Application, Mode, SIGKILL_NUM, SIGTERM_NUM,
};
pub use health::{
    avail_mib, df_ok, entry_matches, first_probe_deadline, lemma_df_mib_equivalent,
    lemma_probe_cadence, next_probe_deadline, probe_instant, spec_avail_mib, spec_check_message,
    spec_df_ok, strip_newline, DfCheck, DfOutcome, HealthCheck, IntervalHealthCheck, ProcCheck,
    ProcEntry, TcpCheck,
};
pub use init::{
    backoff_elapsed, dep_edge, dep_ok, deps_wf, fail_marked, is_dep_path, is_first_id, kill_due,
    lemma_claim_touches_one_record, lemma_edge_reaches, lemma_grace_deadline_escalates,
    lemma_handle_term_idempotent, lemma_no_deps_starts_immediately, lemma_reaches_step,
    lemma_schedule_stop_idempotent, lemma_start_respects_dependencies,
    lemma_stop_waits_for_dependents, mark_stop, mark_term, modes_wf, no_claimant, post_claim_spec,
    rdep_contains, rdeps_quiesced, rdeps_wf, reaches, schedule_stop_spec, start_eligible, stop_due,
    subscribed, term_marked, wf, Init, InitApp, BACKOFF_MS, GRACE_MS,
};
pub use limits::{
    apply_entry, combine_limits, fold_entries, fold_groups, get_limits,
    lemma_combine_limits_associative, lemma_combine_limits_commutative,
    lemma_combine_limits_identity, lookup_group, mem_values_in_range, min_limit, unlimited,
    valid_resource_key, Limit, LimitSet, LimitsError, RLimit, MIB,
};
pub use stream::{
    first_newline, has_newline, lemma_first_newline, Address, Facility, LineBuffer, Severity,
    Stream,
};
pub use text::{
    all_digits, dec_digits, digit_char, digit_val, digits_value, first_line, is_digit,
    lemma_dec_digits_value, lemma_line_end, lemma_render_parse_round_trip, line_end, parse_pid_text, parse_u32, spec_parse_u32,
    u64_to_string,
};
pub use timers::{first_min_index, lemma_min_instant, min_instant, Timer, Timers};
