use tt_core::journal::{flush_next, FlushStep};

#[test]
fn flush_steps_in_order_when_all_succeed() {
    let mut step = FlushStep::Backup;
    let mut seen = vec![step];
    while !matches!(step, FlushStep::Finished { .. }) {
        step = flush_next(step, true);
        seen.push(step);
    }
    assert_eq!(
        vec![
            FlushStep::Backup,
            FlushStep::Write,
            FlushStep::Cleanup { written: true },
            FlushStep::Finished { ok: true },
        ],
        seen
    );
}

#[test]
fn failed_write_restores_backup() {
    assert_eq!(FlushStep::Restore, flush_next(FlushStep::Write, false));
    assert_eq!(FlushStep::Cleanup { written: false }, flush_next(FlushStep::Restore, true));
    assert_eq!(FlushStep::Finished { ok: false }, flush_next(FlushStep::Cleanup { written: false }, true));
}

#[test]
fn failed_backup_or_restore_stops() {
    assert_eq!(FlushStep::Finished { ok: false }, flush_next(FlushStep::Backup, false));
    assert_eq!(FlushStep::Finished { ok: false }, flush_next(FlushStep::Restore, false));
    assert_eq!(FlushStep::Finished { ok: false }, flush_next(FlushStep::Cleanup { written: true }, false));
    assert_eq!(FlushStep::Finished { ok: true }, flush_next(FlushStep::Finished { ok: true }, false));
}
