//! How the schedule is renewed: a download takes the place of the one at hand only once it is whole
//! and could be read.

use vstd::prelude::*;

verus! {

/// How long to wait between two downloads, in seconds.
pub const REFRESH_INTERVAL_SECONDS: u64 = 86_400;

/// How long to wait before the first download in the background.
pub open spec fn delay_before_first(loaded_existing_cache: bool) -> u64 {
    if loaded_existing_cache {
        0
    } else {
        REFRESH_INTERVAL_SECONDS
    }
}

/// How long to wait before the first download in the background: not at all where the schedule came
/// from the disk and may be old, else as between two downloads.
pub fn first_refresh_delay(loaded_existing_cache: bool) -> (r: u64)
    ensures
        r == delay_before_first(loaded_existing_cache),
        r == (if loaded_existing_cache {
            0
        } else {
            REFRESH_INTERVAL_SECONDS
        }),
{
    if loaded_existing_cache {
        0
    } else {
        REFRESH_INTERVAL_SECONDS
    }
}

/// Whether a file on the disk can hold a schedule, by its length.
pub fn is_usable_cache(length: u64) -> (r: bool)
    ensures
        r == (length > 0),
{
    length > 0
}

/// Where a download is.
#[derive(Debug, Clone, Copy, PartialEq, Eq, Structural)]
pub enum DownloadStage {
    /// Its body is received; so many bytes are here.
    Receiving { received: u64 },
    /// It is read as a schedule.
    Reading,
    /// It takes the place of the file at hand.
    Replacing,
    /// It has taken that place.
    Done,
    /// It has failed.
    Failed,
}

/// What happens to a download.
#[derive(Debug, Clone, Copy, PartialEq, Eq, Structural)]
pub enum DownloadEvent {
    /// A piece of so many bytes was written.
    Piece { length: u64 },
    /// The body has ended.
    End,
    /// What was asked for was done.
    Success,
    /// What was asked for could not be done.
    Failure,
}

/// What is to be done with a download.
#[derive(Debug, Clone, Copy, PartialEq, Eq, Structural)]
pub enum DownloadAction {
    /// Receive the next piece.
    Receive,
    /// Read the file as a schedule.
    Read,
    /// Put the file in the place of the one at hand.
    Replace,
    /// Use the schedule.
    Publish,
    /// Throw the file away: it is empty.
    DiscardEmpty,
    /// Throw the file away: it does not have the length that was announced.
    DiscardIncomplete { expected: u64, received: u64 },
    /// Do nothing more.
    GiveUp,
}

/// Whether so many bytes are a whole file, by the length that was announced if one was.
pub open spec fn is_whole(expected: Option<u64>, received: int) -> bool {
    received > 0 && (expected matches Some(length) ==> received == length)
}

/// What becomes of a download, and what is to be done with it.
pub open spec fn next_step(
    stage: DownloadStage,
    expected: Option<u64>,
    event: DownloadEvent,
) -> (DownloadStage, DownloadAction) {
    match (stage, event) {
        (
            DownloadStage::Receiving { received },
            DownloadEvent::Piece { length },
        ) => (
            DownloadStage::Receiving { received: (received + length) as u64 },
            DownloadAction::Receive,
        ),
        (DownloadStage::Receiving { received }, DownloadEvent::End) => if is_whole(
            expected,
            received as int,
        ) {
            (DownloadStage::Reading, DownloadAction::Read)
        } else if received == 0 {
            (DownloadStage::Failed, DownloadAction::DiscardEmpty)
        } else {
            (
                DownloadStage::Failed,
                DownloadAction::DiscardIncomplete { expected: expected->0, received },
            )
        },
        (DownloadStage::Reading, DownloadEvent::Success) => (
            DownloadStage::Replacing,
            DownloadAction::Replace,
        ),
        (DownloadStage::Replacing, DownloadEvent::Success) => (
            DownloadStage::Done,
            DownloadAction::Publish,
        ),
        _ => (DownloadStage::Failed, DownloadAction::GiveUp),
    }
}

/// Takes a download one step further.
pub fn advance(stage: DownloadStage, expected: Option<u64>, event: DownloadEvent) -> (r: (
    DownloadStage,
    DownloadAction,
))
    requires
        stage matches DownloadStage::Receiving { received } ==> (
        event matches DownloadEvent::Piece { length } ==> received + length <= u64::MAX),
    ensures
        r == next_step(stage, expected, event),
{
    match stage {
        DownloadStage::Receiving { received } => match event {
            DownloadEvent::Piece { length } => (
                DownloadStage::Receiving { received: received + length },
                DownloadAction::Receive,
            ),
            DownloadEvent::End => {
                if received == 0 {
                    return (DownloadStage::Failed, DownloadAction::DiscardEmpty);
                }
                if let Some(length) = expected {
                    if received != length {
                        return (
                            DownloadStage::Failed,
                            DownloadAction::DiscardIncomplete { expected: length, received },
                        );
                    }
                }
                (DownloadStage::Reading, DownloadAction::Read)
            },
            _ => (DownloadStage::Failed, DownloadAction::GiveUp),
        },
        DownloadStage::Reading => match event {
            DownloadEvent::Success => (DownloadStage::Replacing, DownloadAction::Replace),
            _ => (DownloadStage::Failed, DownloadAction::GiveUp),
        },
        DownloadStage::Replacing => match event {
            DownloadEvent::Success => (DownloadStage::Done, DownloadAction::Publish),
            _ => (DownloadStage::Failed, DownloadAction::GiveUp),
        },
        _ => (DownloadStage::Failed, DownloadAction::GiveUp),
    }
}

/// The bytes of the pieces among events.
pub open spec fn bytes_in(events: Seq<DownloadEvent>) -> int
    decreases events.len(),
{
    if events.len() == 0 {
        0
    } else {
        bytes_in(events.drop_last()) + (match events.last() {
            DownloadEvent::Piece { length } => length as int,
            _ => 0,
        })
    }
}

/// Where a download is after events.
pub open spec fn stage_after(expected: Option<u64>, events: Seq<DownloadEvent>) -> DownloadStage
    decreases events.len(),
{
    if events.len() == 0 {
        DownloadStage::Receiving { received: 0 }
    } else {
        next_step(stage_after(expected, events.drop_last()), expected, events.last()).0
    }
}

/// Whether a download that has got so far is whole, and was read if it is to replace the file.
pub open spec fn has_earned(
    stage: DownloadStage,
    expected: Option<u64>,
    events: Seq<DownloadEvent>,
) -> bool {
    match stage {
        DownloadStage::Receiving { received } => received == bytes_in(events),
        DownloadStage::Reading => is_whole(expected, bytes_in(events)),
        DownloadStage::Replacing => is_whole(expected, bytes_in(events)) && events.contains(
            DownloadEvent::Success,
        ),
        DownloadStage::Done => is_whole(expected, bytes_in(events)) && events.contains(
            DownloadEvent::Success,
        ),
        DownloadStage::Failed => true,
    }
}

/// The law of downloads: whatever happens, one comes to the place of the file at hand only when it
/// is whole and was read.
pub proof fn only_whole_downloads_replace(expected: Option<u64>, events: Seq<DownloadEvent>)
    requires
        bytes_in(events) <= u64::MAX,
    ensures
        has_earned(stage_after(expected, events), expected, events),
    decreases events.len(),
{
    if events.len() > 0 {
        let front = events.drop_last();
        bytes_are_natural(front);
        assert(events[events.len() - 1] == events.last());
        only_whole_downloads_replace(expected, front);
        if front.contains(DownloadEvent::Success) {
            let i = choose|i: int| 0 <= i < front.len() && front[i] == DownloadEvent::Success;
            assert(events[i] == front[i]);
        }
    }
}

proof fn bytes_are_natural(events: Seq<DownloadEvent>)
    ensures
        bytes_in(events) >= 0,
    decreases events.len(),
{
    if events.len() > 0 {
        bytes_are_natural(events.drop_last());
    }
}

} // verus!
