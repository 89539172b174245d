use adsb_radar::weather::{
    bucket_of, tile_data_url, tile_failure, tile_url, TileCache, TileKey, TileLookup, TileReply,
};

fn key(x: u32, bucket: u64) -> TileKey {
    TileKey { z: 5, x, y: 7, bucket }
}

#[test]
fn tiles_become_data_urls() {
    for (bytes, text) in [
        (b"".to_vec(), ""),
        (b"f".to_vec(), "Zg=="),
        (b"fo".to_vec(), "Zm8="),
        (b"foo".to_vec(), "Zm9v"),
        (b"foobar".to_vec(), "Zm9vYmFy"),
        (vec![0xfb, 0xef, 0xff], "++//"),
    ] {
        assert_eq!(tile_data_url(&bytes), format!("data:image/png;base64,{text}"));
    }
}

#[test]
fn tile_urls_and_errors() {
    assert_eq!(
        tile_url(5, 0, 12),
        "https://mesonet.agron.iastate.edu/cache/tile.py/1.0.0/nexrad-n0q-900913/5/0/12.png"
    );
    assert_eq!(tile_failure(503).as_deref(), Some("wx http 503"));
    assert_eq!(tile_failure(404).as_deref(), Some("wx http 404"));
    assert_eq!(tile_failure(199).as_deref(), Some("wx http 199"));
    assert_eq!(tile_failure(300).as_deref(), Some("wx http 300"));
    assert_eq!(tile_failure(200), None);
    assert_eq!(tile_failure(299), None);
}

#[test]
fn tiles_are_current_for_five_minutes() {
    assert_eq!(bucket_of(0), 0);
    assert_eq!(bucket_of(299), 0);
    assert_eq!(bucket_of(300), 1);
    assert_eq!(bucket_of(1_720_000_000), 5_733_333);
}

#[test]
fn storing_a_tile_drops_stale_ones() {
    let mut c = TileCache::new();
    assert_eq!(c.get(key(1, 9)), None);
    c.put(key(1, 9), "one".to_string());
    c.put(key(2, 9), "two".to_string());
    c.put(key(1, 9), "uno".to_string());
    assert_eq!(c.get(key(1, 9)).as_deref(), Some("uno"));
    assert_eq!(c.get(key(2, 9)).as_deref(), Some("two"));
    assert_eq!(c.get(key(1, 10)), None);
    c.put(key(1, 10), "new".to_string());
    assert_eq!(c.get(key(1, 9)), None);
    assert_eq!(c.get(key(2, 9)), None);
    assert_eq!(c.get(key(1, 10)).as_deref(), Some("new"));
}

#[test]
fn tiles_are_requested_once_per_period() {
    let mut c = TileCache::new();
    let (k, u) = match c.lookup(5, 1, 7, 900) {
        TileLookup::Fetch { key, url } => (key, url),
        other => panic!("{other:?}"),
    };
    assert_eq!((k, u), (key(1, 3), tile_url(5, 1, 7)));
    let ok = TileReply::Answered { status: 200, body: Ok(b"foo".to_vec()) };
    assert_eq!(c.settle(k, ok).as_deref(), Ok("data:image/png;base64,Zm9v"));
    match c.lookup(5, 1, 7, 1199) {
        TileLookup::Known(url) => assert_eq!(url, "data:image/png;base64,Zm9v"),
        other => panic!("{other:?}"),
    }
    assert!(matches!(c.lookup(5, 1, 7, 1200), TileLookup::Fetch { .. }));
}

#[test]
fn failed_tiles_change_nothing() {
    let mut c = TileCache::new();
    c.put(key(1, 9), "one".to_string());
    let lost = TileReply::Failed("timeout".to_string());
    assert_eq!(c.settle(key(2, 10), lost), Err("timeout".to_string()));
    let refused = TileReply::Answered { status: 503, body: Ok(b"foo".to_vec()) };
    assert_eq!(c.settle(key(2, 10), refused), Err("wx http 503".to_string()));
    let odd = TileReply::Answered { status: 500, body: Err("cut off".to_string()) };
    assert_eq!(c.settle(key(2, 10), odd), Err("wx http 500".to_string()));
    let torn = TileReply::Answered { status: 200, body: Err("cut off".to_string()) };
    assert_eq!(c.settle(key(2, 10), torn), Err("cut off".to_string()));
    assert_eq!(c.get(key(2, 10)), None);
    assert_eq!(c.get(key(1, 9)).as_deref(), Some("one"));
}
