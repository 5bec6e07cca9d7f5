use mdnr_map_downloader::location::{check_status, Location, LocationError, MapRectView};

#[test]
fn test_map_view_count() {
    let view = MapRectView::new(
        Location {
            x: 0,
            y: 0,
            layer: 16,
        },
        5,
        5,
    );
    assert_eq!(view.count(), view.num_imgs() as usize);
}

#[test]
fn new_keeps_fields() {
    let l = Location::new(15746, 23542, 16);
    assert_eq!(l, Location { x: 15746, y: 23542, layer: 16 });
}

#[test]
fn translate_to_same_layer_is_identity() {
    let l = Location::new(15746, 23542, 16);
    assert_eq!(l.translate_layer(16), l);
}

#[test]
fn translate_shallower_halves_rounding_down() {
    let l = Location::new(15746, 23542, 16);
    assert_eq!(l.translate_layer(15), Location { x: 7873, y: 11771, layer: 15 });
    assert_eq!(l.translate_layer(12), Location { x: 984, y: 1471, layer: 12 });
    assert_eq!(l.translate_layer(1), Location { x: 0, y: 0, layer: 1 });
}

#[test]
fn translate_deeper_doubles() {
    let l = Location::new(3, 5, 10);
    assert_eq!(l.translate_layer(13), Location { x: 24, y: 40, layer: 13 });
}

#[test]
fn translate_round_trip_returns_start() {
    let l = Location::new(123, 456, 4);
    let deep = l.translate_layer(10);
    assert_eq!(deep, Location { x: 123 * 64, y: 456 * 64, layer: 10 });
    assert_eq!(deep.translate_layer(4), l);
}

#[test]
fn translate_composes_downwards() {
    let l = Location::new(15746, 23542, 16);
    assert_eq!(l.translate_layer(13).translate_layer(9), l.translate_layer(9));
}

#[test]
fn shallower_tile_covers_location() {
    let l = Location::new(15746, 23542, 16);
    let back = l.translate_layer(12).translate_layer(16);
    assert_eq!(back, Location { x: 15744, y: 23536, layer: 16 });
    assert!(back.x <= l.x && l.x < back.x + 16);
    assert!(back.y <= l.y && l.y < back.y + 16);
}

#[test]
fn url_of_tile() {
    let l = Location::new(15746, 23542, 16);
    assert_eq!(
        l.get_url(),
        "https://tiles.dnr.state.mn.us/mapcache/gmaps/compass@mn_google/16/15746/23542.png"
    );
    let z = Location::new(0, 7, 1);
    assert_eq!(
        z.get_url(),
        "https://tiles.dnr.state.mn.us/mapcache/gmaps/compass@mn_google/1/0/7.png"
    );
}

#[test]
fn display_text_of_location() {
    let l = Location::new(1, 20, 3);
    assert_eq!(l.to_display_string(), "Location[x:1, y:20, layer: 3]");
    let m = Location::new(65535, 0, 16);
    assert_eq!(m.to_display_string(), "Location[x:65535, y:0, layer: 16]");
}

#[test]
fn view_walks_rows_left_to_right() {
    let mut view = MapRectView::new(Location::new(10, 20, 5), 3, 2);
    assert_eq!(view.width(), 3);
    assert_eq!(view.height(), 2);
    assert_eq!(view.num_imgs(), 6);
    let mut seen = Vec::new();
    while let Some(l) = view.next() {
        seen.push((l.x, l.y, l.layer));
    }
    assert_eq!(
        seen,
        vec![(10, 20, 5), (11, 20, 5), (12, 20, 5), (10, 21, 5), (11, 21, 5), (12, 21, 5)]
    );
    assert_eq!(view.next(), None);
}

#[test]
fn view_count_after_partial_walk() {
    let mut view = MapRectView::new(Location::new(0, 0, 16), 4, 3);
    view.next();
    view.next();
    assert_eq!(view.count(), 10);
}

#[test]
fn empty_view_counts_zero() {
    let view = MapRectView::new(Location::new(0, 0, 16), 0, 7);
    assert_eq!(view.num_imgs(), 0);
    assert_eq!(view.count(), 0);
}

#[test]
fn view_around_centres_on_location() {
    let center = Location::new(100, 200, 16);
    let mut view = MapRectView::around(center, 2);
    assert_eq!(view.width(), 5);
    assert_eq!(view.height(), 5);
    assert_eq!(view.num_imgs(), 25);
    let first = view.next().unwrap();
    assert_eq!(first, Location::new(98, 198, 16));
    let mut middle = None;
    for i in 1..25 {
        let l = view.next().unwrap();
        if i == 12 {
            middle = Some(l);
        }
    }
    assert_eq!(middle, Some(center));
    assert_eq!(view.next(), None);
}

#[test]
fn status_ok_reads_body() {
    assert!(check_status(200).is_ok());
}

#[test]
fn status_other_is_error() {
    match check_status(404) {
        Err(LocationError::ResponceCode(c)) => assert_eq!(c, 404),
        other => panic!("unexpected {:?}", other),
    }
    match check_status(503) {
        Err(LocationError::ResponceCode(c)) => assert_eq!(c, 503),
        other => panic!("unexpected {:?}", other),
    }
}

#[test]
fn error_from_status_code() {
    match LocationError::from(429u16) {
        LocationError::ResponceCode(c) => assert_eq!(c, 429),
        other => panic!("unexpected {:?}", other),
    }
}

#[test]
fn collect_walks_whole_rectangle() {
    let mut view = MapRectView::new(Location::new(7, 9, 12), 2, 3);
    let tiles = view.collect_locations();
    assert_eq!(tiles.len(), 6);
    assert_eq!(tiles.len(), view.num_imgs() as usize);
    let coords: Vec<(u16, u16)> = tiles.iter().map(|l| (l.x, l.y)).collect();
    assert_eq!(coords, vec![(7, 9), (8, 9), (7, 10), (8, 10), (7, 11), (8, 11)]);
    assert!(tiles.iter().all(|l| l.layer == 12));
    assert_eq!(view.width(), 2);
    assert_eq!(view.height(), 3);
    assert_eq!(view.next(), None);
    assert!(view.collect_locations().is_empty());
}

#[test]
fn distinct_tiles_have_distinct_urls() {
    let a = Location::new(1, 23, 5);
    let b = Location::new(12, 3, 5);
    let c = Location::new(1, 23, 15);
    assert_ne!(a.get_url(), b.get_url());
    assert_ne!(a.get_url(), c.get_url());
    assert_eq!(a.get_url(), Location::new(1, 23, 5).get_url());
}

#[test]
fn walking_past_the_end_keeps_width_and_height() {
    let mut view = MapRectView::new(Location::new(3, 4, 10), 3, 2);
    for _ in 0..20 {
        view.next();
        assert_eq!(view.width(), 3);
        assert_eq!(view.height(), 2);
    }
    assert_eq!(view.next(), None);
}
