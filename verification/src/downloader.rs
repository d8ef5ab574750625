//! Tiles as they come back from the Mapbox Static Images API, the request URL
//! of a tile, and the retry decisions taken while a tile is fetched.

use vstd::prelude::*;

verus! {

/// The encoded image of the tile at grid position (`row`, `col`).
#[derive(Clone, Debug)]
pub struct DownloadedTile {
    pub row: u32,
    pub col: u32,
    pub bytes: Vec<u8>,
}


/// Requests per tile before the download gives up.
pub const MAX_FETCH_ATTEMPTS: u32 = 2;

/// Pause after a failed request, in milliseconds.
pub const RETRY_PAUSE_MS: u64 = 300;

/// The URL of a 1280 x 1280 @2x satellite image centered on (`lon`, `lat`) at
/// `zoom`, without bearing, attribution or logo. The coordinates and zoom are
/// given as they appear in the URL (six and two decimals).
pub open spec fn static_image_url(lon: Seq<char>, lat: Seq<char>, zoom: Seq<char>, token: Seq<char>) -> Seq<char> {
    "https://api.mapbox.com/styles/v1/mapbox/satellite-v9/static/"@ + lon + ","@ + lat + ","@ + zoom
        + ",0/1280x1280@2x?attribution=false&logo=false&access_token="@ + token
}

/// Builds the Static Images API URL of one tile.
pub fn mapbox_static_url(lon: &str, lat: &str, zoom: &str, token: &str) -> (url: String)
    ensures
        url@ == static_image_url(lon@, lat@, zoom@, token@),
{
    let mut url = String::from_str("https://api.mapbox.com/styles/v1/mapbox/satellite-v9/static/");
    url.append(lon);
    url.append(",");
    url.append(lat);
    url.append(",");
    url.append(zoom);
    url.append(",0/1280x1280@2x?attribution=false&logo=false&access_token=");
    url.append(token);
    url
}

/// Law: the URL carries each coordinate verbatim. After the fixed start come
/// `lon`, a comma, `lat`, a comma and `zoom`, each exactly as given, so each
/// can be read back from the URL.
pub proof fn lemma_static_image_url_fields(lon: Seq<char>, lat: Seq<char>, zoom: Seq<char>, token: Seq<char>)
    ensures
        ({
            let url = static_image_url(lon, lat, zoom, token);
            let p = "https://api.mapbox.com/styles/v1/mapbox/satellite-v9/static/"@.len() as int;
            let a = p + lon.len();
            let b = a + 1 + lat.len();
            let c = b + 1 + zoom.len();
            &&& url.subrange(0, p) == "https://api.mapbox.com/styles/v1/mapbox/satellite-v9/static/"@
            &&& url.subrange(p, a) == lon
            &&& url[a] == ','
            &&& url.subrange(a + 1, b) == lat
            &&& url[b] == ','
            &&& url.subrange(b + 1, c) == zoom
            &&& url.subrange(url.len() - token.len(), url.len() as int) == token
        }),
{
    let pre = "https://api.mapbox.com/styles/v1/mapbox/satellite-v9/static/"@;
    let mid = ",0/1280x1280@2x?attribution=false&logo=false&access_token="@;
    let url = static_image_url(lon, lat, zoom, token);
    let p = pre.len() as int;
    let a = p + lon.len();
    let b = a + 1 + lat.len();
    let c = b + 1 + zoom.len();
    assert(","@.len() == 1) by {
        reveal_strlit(",");
    }
    assert(","@[0] == ',') by {
        reveal_strlit(",");
    }
    assert(url == pre + lon + ","@ + lat + ","@ + zoom + mid + token);
    assert(url.subrange(0, p) =~= pre);
    assert(url.subrange(p, a) =~= lon);
    assert(url[a] == ","@[0]);
    assert(url.subrange(a + 1, b) =~= lat);
    assert(url[b] == ","@[0]);
    assert(url.subrange(b + 1, c) =~= zoom);
    assert(url.subrange(url.len() - token.len(), url.len() as int) =~= token);
}

/// Law: tiles at different latitudes get different URLs: with the other fields
/// the same, two URLs are equal only when the latitudes are.
pub proof fn lemma_static_image_url_distinguishes_lat(
    lon: Seq<char>,
    lat1: Seq<char>,
    lat2: Seq<char>,
    zoom: Seq<char>,
    token: Seq<char>,
)
    requires
        static_image_url(lon, lat1, zoom, token) == static_image_url(lon, lat2, zoom, token),
    ensures
        lat1 == lat2,
{
    lemma_static_image_url_fields(lon, lat1, zoom, token);
    lemma_static_image_url_fields(lon, lat2, zoom, token);
    assert(lat1.len() == lat2.len());
}

/// What happened in the last stage of fetching a tile.
#[derive(Clone, Copy, Debug, PartialEq, Eq)]
pub enum AttemptOutcome {
    /// The server answered the request with this HTTP status code.
    Status(u16),
    /// No answer came back to the request.
    RequestFailed,
    /// The body of a `200 OK` answer was read.
    BodyRead,
    /// The body of a `200 OK` answer could not be read.
    BodyUnreadable,
}

/// What to do next while fetching a tile.
#[derive(Clone, Copy, Debug, PartialEq, Eq)]
pub enum FetchStep {
    /// The answer is `200 OK`: read its body as the tile.
    ReadBody,
    /// Pause `RETRY_PAUSE_MS`, then request the tile again.
    PauseThenRetry,
    /// Pause `RETRY_PAUSE_MS`, then report the failure of this last request.
    PauseThenGiveUp,
    /// The body is the tile: the fetch is done.
    Deliver,
    /// Report the failure to read the body at once, without another request.
    GiveUp,
}

/// The step after stage `outcome` of request number `attempt` (counted from 1):
/// only a `200 OK` answer is read; any other answer, or none, is retried until
/// `MAX_FETCH_ATTEMPTS` requests have been made; a body that was read is the
/// tile, and a body that cannot be read ends the fetch without a retry.
pub fn next_fetch_step(attempt: u32, outcome: AttemptOutcome) -> (step: FetchStep)
    requires
        1 <= attempt <= MAX_FETCH_ATTEMPTS,
    ensures
        step == match outcome {
            AttemptOutcome::BodyRead => FetchStep::Deliver,
            AttemptOutcome::BodyUnreadable => FetchStep::GiveUp,
            AttemptOutcome::Status(200) => FetchStep::ReadBody,
            _ => if attempt < MAX_FETCH_ATTEMPTS {
                FetchStep::PauseThenRetry
            } else {
                FetchStep::PauseThenGiveUp
            },
        },
{
    match outcome {
        AttemptOutcome::BodyRead => FetchStep::Deliver,
        AttemptOutcome::BodyUnreadable => FetchStep::GiveUp,
        AttemptOutcome::Status(code) => {
            if code == 200 {
                FetchStep::ReadBody
            } else if attempt < MAX_FETCH_ATTEMPTS {
                FetchStep::PauseThenRetry
            } else {
                FetchStep::PauseThenGiveUp
            }
        },
        AttemptOutcome::RequestFailed => {
            if attempt < MAX_FETCH_ATTEMPTS {
                FetchStep::PauseThenRetry
            } else {
                FetchStep::PauseThenGiveUp
            }
        },
    }
}

} // verus!
