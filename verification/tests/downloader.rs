use mapbox_wallpaper_generator::downloader::{
    mapbox_static_url, next_fetch_step, AttemptOutcome, FetchStep, MAX_FETCH_ATTEMPTS,
};

#[test]
fn static_url_contains_expected_parts() {
    let lon = format!("{:.6}", 3.2728f64);
    let lat = format!("{:.6}", 44.8263f64);
    let zoom = format!("{:.2}", 8.69f64);
    let url = mapbox_static_url(&lon, &lat, &zoom, "TOKEN123");
    assert!(url.contains("mapbox/satellite-v9"));
    assert!(url.contains("/1280x1280@2x"));
    assert!(url.contains("access_token=TOKEN123"));
    assert!(url.contains("3.272800,44.826300,8.69,0"));
}

#[test]
fn static_url_is_exact() {
    let url = mapbox_static_url("-0.127800", "51.507400", "12.00", "pk.abc");
    assert_eq!(
        url,
        "https://api.mapbox.com/styles/v1/mapbox/satellite-v9/static/-0.127800,51.507400,12.00,0/1280x1280@2x?attribution=false&logo=false&access_token=pk.abc"
    );
}

#[test]
fn ok_status_is_read_at_any_attempt() {
    assert_eq!(next_fetch_step(1, AttemptOutcome::Status(200)), FetchStep::ReadBody);
    assert_eq!(next_fetch_step(2, AttemptOutcome::Status(200)), FetchStep::ReadBody);
}

#[test]
fn failures_are_retried_once_then_given_up() {
    assert_eq!(MAX_FETCH_ATTEMPTS, 2);
    assert_eq!(next_fetch_step(1, AttemptOutcome::Status(503)), FetchStep::PauseThenRetry);
    assert_eq!(next_fetch_step(1, AttemptOutcome::RequestFailed), FetchStep::PauseThenRetry);
    assert_eq!(next_fetch_step(2, AttemptOutcome::Status(404)), FetchStep::PauseThenGiveUp);
    assert_eq!(next_fetch_step(2, AttemptOutcome::RequestFailed), FetchStep::PauseThenGiveUp);
}

#[test]
fn other_success_codes_are_not_accepted() {
    assert_eq!(next_fetch_step(1, AttemptOutcome::Status(204)), FetchStep::PauseThenRetry);
    assert_eq!(next_fetch_step(2, AttemptOutcome::Status(201)), FetchStep::PauseThenGiveUp);
}

#[test]
fn body_outcomes_end_the_fetch() {
    assert_eq!(next_fetch_step(1, AttemptOutcome::BodyRead), FetchStep::Deliver);
    assert_eq!(next_fetch_step(2, AttemptOutcome::BodyRead), FetchStep::Deliver);
    assert_eq!(next_fetch_step(1, AttemptOutcome::BodyUnreadable), FetchStep::GiveUp);
    assert_eq!(next_fetch_step(2, AttemptOutcome::BodyUnreadable), FetchStep::GiveUp);
}
