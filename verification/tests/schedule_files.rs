use idfm_realtime::gtfs::{Gtfs, Trip};
use idfm_realtime::gtfs_manager::{
    advance, first_refresh_delay, is_usable_cache, DownloadAction, DownloadEvent, DownloadStage,
};
use idfm_realtime::survey::{count_known_names, has_short_name, survey_short_names};

fn run(expected: Option<u64>, events: &[DownloadEvent]) -> (DownloadStage, DownloadAction) {
    let mut stage = DownloadStage::Receiving { received: 0 };
    let mut action = DownloadAction::Receive;
    for event in events {
        (stage, action) = advance(stage, expected, *event);
    }
    (stage, action)
}

const TEN: DownloadEvent = DownloadEvent::Piece { length: 10 };

#[test]
fn a_whole_download_replaces_the_cache() {
    let events = [TEN, TEN, DownloadEvent::End];
    assert_eq!(run(Some(20), &events).1, DownloadAction::Read);
    assert_eq!(run(None, &events).1, DownloadAction::Read);
    let read = [TEN, DownloadEvent::End, DownloadEvent::Success];
    assert_eq!(run(Some(10), &read).1, DownloadAction::Replace);
    let replaced = [TEN, DownloadEvent::End, DownloadEvent::Success, DownloadEvent::Success];
    assert_eq!(run(Some(10), &replaced), (DownloadStage::Done, DownloadAction::Publish));
}

#[test]
fn a_broken_download_does_not() {
    assert_eq!(
        run(Some(0), &[DownloadEvent::End]),
        (DownloadStage::Failed, DownloadAction::DiscardEmpty)
    );
    assert_eq!(
        run(Some(21), &[TEN, TEN, DownloadEvent::End]).1,
        DownloadAction::DiscardIncomplete {
            expected: 21,
            received: 20
        }
    );
    assert_eq!(run(None, &[TEN, DownloadEvent::Failure]).1, DownloadAction::GiveUp);
    assert_eq!(
        run(None, &[TEN, DownloadEvent::End, DownloadEvent::Failure]).1,
        DownloadAction::GiveUp
    );
    assert_eq!(
        run(None, &[TEN, DownloadEvent::Failure, DownloadEvent::Success]).1,
        DownloadAction::GiveUp
    );
}

#[test]
fn a_cached_schedule_is_refreshed_at_once() {
    assert_eq!(first_refresh_delay(true), 0);
    assert_eq!(first_refresh_delay(false), 86_400);
    assert!(is_usable_cache(1));
    assert!(!is_usable_cache(0));
}

#[test]
fn short_names_are_surveyed() {
    let mut gtfs = Gtfs::new();
    for (id, name) in [("a", None), ("b", Some("12")), ("c", Some("13")), ("d", Some("12"))] {
        gtfs.trips.insert(
            id.to_string(),
            Trip {
                id: id.to_string(),
                service_id: String::new(),
                route_id: String::new(),
                stop_times: Vec::new(),
                trip_short_name: name.map(str::to_string),
            },
        );
    }
    assert_eq!(survey_short_names(&gtfs.trips, 2), (3, vec![1, 2]));
    assert_eq!(survey_short_names(&gtfs.trips, 10), (3, vec![1, 2, 3]));
    assert!(has_short_name(&gtfs.trips, "13"));
    assert!(!has_short_name(&gtfs.trips, "1"));
    let names = vec!["12".to_string(), "14".to_string(), "12".to_string()];
    assert_eq!(count_known_names(&names, &gtfs.trips), 2);
}
