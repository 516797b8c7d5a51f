use chainfold::driver::{check_horizon, due, group_into};
use chainfold::{
    ApplyError, Batch, BatchShapeError, BlockRef, ConfigError, Delay, Describe, DivergenceCause,
    DriverConfig, DurabilityLost, EngineStatus, FoldError, Position, ReplayHorizon, RollbackError,
};

#[derive(Debug, Clone, Copy, PartialEq, Eq)]
struct Refused;

fn block(number: u64) -> BlockRef {
    BlockRef {
        number,
        hash: [number as u8; 32],
    }
}

#[test]
fn statuses_describe_themselves() {
    assert_eq!(EngineStatus::Active.describe(), "active");
    assert_eq!(
        EngineStatus::Unrecoverable {
            cause: DivergenceCause::HorizonExceeded {
                needed: 0,
                horizon: 100
            }
        }
        .describe(),
        "unrecoverable: replay needs block 0, source horizon is 100"
    );
    assert_eq!(
        DurabilityLost.describe(),
        "durability sink refused a snapshot; snapshots are no longer persisted"
    );
}

#[test]
fn fork_texts_carry_both_hashes() {
    let text = ApplyError::<ConfigError>::ForkSuspected {
        observed: block(5),
        refetched: block(6),
    }
    .describe();
    assert!(text.contains(&"05".repeat(32)));
    assert!(text.contains(&"06".repeat(32)));
}

#[test]
fn errors_compare_by_value() {
    assert_eq!(
        ApplyError::<Refused>::Shape(BatchShapeError::SpanEmpty { span: 1 }),
        ApplyError::<Refused>::Shape(BatchShapeError::SpanEmpty { span: 1 })
    );
    assert_ne!(FoldError::Skip(Refused), FoldError::Halt(Refused));
    assert_ne!(
        RollbackError::NoCheckpointAtOrBelow { block: 1 },
        RollbackError::NoCheckpointAtOrBelow { block: 2 }
    );
}

#[test]
fn cadences_come_due_by_blocks() {
    assert!(due(None, 0, 4));
    assert!(!due(Some(4), 7, 4));
    assert!(due(Some(4), 8, 4));
    assert!(!due(Some(4), 2, 4));
}

#[test]
fn a_horizon_above_the_start_is_refused() {
    let config = DriverConfig::from_block(7);
    assert_eq!(check_horizon(&config, ReplayHorizon::Genesis), Ok(()));
    assert_eq!(check_horizon(&config, ReplayHorizon::FromBlock(7)), Ok(()));
    assert_eq!(
        check_horizon(&config, ReplayHorizon::FromBlock(8)),
        Err(ConfigError::HorizonExceedsStart {
            start: 7,
            horizon: 8
        })
    );
}

#[test]
fn entries_are_sorted_and_grouped_by_block() {
    let mut batch: Batch<u64> = Batch::new();
    let mut entries = vec![
        (block(9), 1, 91),
        (block(4), 0, 40),
        (block(9), 0, 90),
    ];
    group_into(&mut batch, &mut entries);
    assert_eq!(batch.blocks, vec![4, 9]);
    assert_eq!(batch.log_indices, vec![0, 0, 1]);
    assert_eq!(batch.events, vec![40, 90, 91]);
    assert_eq!(batch.validate(), Ok(()));
}

#[test]
fn delays_saturate() {
    assert_eq!(Delay::from_millis(200).saturating_mul(2), Delay::from_millis(400));
    let longest = Delay::from_secs(u64::MAX).saturating_mul(u32::MAX);
    assert_eq!(longest.saturating_mul(2), longest);
    assert_eq!(Delay::from_secs(1).shorter(Delay::from_millis(1)), Delay::from_millis(1));
    assert!(Position::new(1, 9).is_at_or_before(&Position::new(2, 0)));
}
