use mapbox_wallpaper_generator::geocoder::{
    first_place, nominatim_search_url, GeocodeError, NominatimPlace,
};

fn places_from_json(body: &str) -> Vec<NominatimPlace> {
    let value: serde_json::Value = serde_json::from_str(body).unwrap();
    value
        .as_array()
        .unwrap()
        .iter()
        .map(|item| NominatimPlace {
            lat: item["lat"].as_str().unwrap().to_string(),
            lon: item["lon"].as_str().unwrap().to_string(),
            display_name: item["display_name"].as_str().unwrap().to_string(),
        })
        .collect()
}

#[test]
fn parses_valid_nominatim_payload() {
    let json = r#"[
      {
        "lat": "44.8263",
        "lon": "3.2728",
        "display_name": "Some Place"
      }
    ]"#;

    let parsed = first_place(places_from_json(json)).unwrap();
    assert_eq!(parsed.display_name, "Some Place");
    assert_eq!(parsed.lat.parse::<f64>().unwrap(), 44.8263);
    assert_eq!(parsed.lon.parse::<f64>().unwrap(), 3.2728);
}

#[test]
fn fails_on_empty_payload() {
    let parsed = first_place(places_from_json("[]"));
    assert!(parsed.is_err());
}

#[test]
fn first_result_is_chosen() {
    let places = vec![
        NominatimPlace { lat: "1".to_string(), lon: "2".to_string(), display_name: "First".to_string() },
        NominatimPlace { lat: "3".to_string(), lon: "4".to_string(), display_name: "Second".to_string() },
    ];
    let chosen = first_place(places).unwrap();
    assert_eq!(chosen.display_name, "First");
    assert_eq!(chosen.lat, "1");
    assert_eq!(chosen.lon, "2");
}

#[test]
fn empty_answer_is_no_results() {
    assert_eq!(first_place(Vec::new()).unwrap_err(), GeocodeError::NoResults);
}

#[test]
fn search_url_is_exact() {
    assert_eq!(
        nominatim_search_url("Tokyo, Japan"),
        "https://nominatim.openstreetmap.org/search?q=Tokyo%2C+Japan&format=jsonv2&limit=1&featureType=city"
    );
}

#[test]
fn search_url_matches_the_url_crate() {
    for place in ["Paris", "São Paulo", "a&b=c?d#e", "x*y-z._~!", "東京", "", "100% + more"] {
        let mut expected = reqwest::Url::parse("https://nominatim.openstreetmap.org/search").unwrap();
        expected
            .query_pairs_mut()
            .append_pair("q", place)
            .append_pair("format", "jsonv2")
            .append_pair("limit", "1")
            .append_pair("featureType", "city");
        assert_eq!(nominatim_search_url(place), expected.as_str(), "place {place:?}");
    }
}
