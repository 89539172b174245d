//! User settings.
use vstd::arithmetic::power2::pow2;
use vstd::prelude::*;

use crate::double::{lemma_whole_number, number, Double};
use crate::text::{chars_of, string_between, texts_of};

verus! {

/// One data feed.
#[derive(Clone, Debug)]
pub struct Feed {
    pub name: String,
    /// URL template with {lat} {lon} {nm} placeholders.
    pub point_url: String,
    /// URL template with a {sqk} placeholder.
    pub sqk_url: String,
}

impl View for Feed {
    type V = (Seq<char>, Seq<char>, Seq<char>);

    open spec fn view(&self) -> (Seq<char>, Seq<char>, Seq<char>) {
        (self.name@, self.point_url@, self.sqk_url@)
    }
}

/// The views of a list of feeds.
pub open spec fn feed_views(feeds: Seq<Feed>) -> Seq<(Seq<char>, Seq<char>, Seq<char>)> {
    feeds.map_values(|f: Feed| f@)
}

/// The settings, live-editable.
#[derive(Clone, Debug)]
pub struct Config {
    pub home_lat: Double,
    pub home_lon: Double,
    /// "What's the loud thing" radius, km.
    pub overhead_radius_km: Double,
    /// Only traffic at or below this counts as overhead, feet.
    pub overhead_ceiling_ft: Double,
    /// Least radius of the point query, nautical miles.
    pub regional_radius_nm: Double,
    /// ICAO type codes (exact), or callsign prefixes marked by a trailing `*`; case-insensitive.
    pub watchlist: Vec<String>,
    pub poll_local_secs: u64,
    /// Duration of one full squawk sweep (all codes, staggered).
    pub poll_sqk_secs: u64,
    /// An aircraft that leaves and re-enters a class within this window does not alert again.
    pub alert_cooldown_secs: u64,
    pub default_zoom_km: Double,
    pub zoom_steps_km: Vec<Double>,
    pub emergency_squawks: Vec<String>,
    pub toast_sound: bool,
    /// Weather underlay on the disc.
    pub wx_enabled: bool,
    /// Altitude band filter for the disc (display only).
    pub alt_filter_on: bool,
    pub alt_floor_ft: Double,
    pub alt_ceiling_ft: Double,
    /// "auto" | "workerw" | "bottom" | "normal".
    pub desktop_mode: String,
    /// In failover order.
    pub feeds: Vec<Feed>,
}

/// Latitude of downtown Chicago, 41.8781 degrees.
pub const HOME_LAT: u64 = 0x4044_f065_94af_4f0e;

/// Longitude of downtown Chicago, -87.6298 degrees.
pub const HOME_LON: u64 = 0xc055_e84e_a4a8_c155;

/// 4 km.
pub const OVERHEAD_RADIUS_KM: u64 = 0x4010_0000_0000_0000;

/// 6000 ft.
pub const OVERHEAD_CEILING_FT: u64 = 0x40b7_7000_0000_0000;

/// 100 nautical miles.
pub const REGIONAL_RADIUS_NM: u64 = 0x4059_0000_0000_0000;

/// 30 km.
pub const DEFAULT_ZOOM_KM: u64 = 0x403e_0000_0000_0000;

/// 0 ft.
pub const ALT_FLOOR_FT: u64 = 0x0000_0000_0000_0000;

/// 50000 ft.
pub const ALT_CEILING_FT: u64 = 0x40e8_6a00_0000_0000;

/// The default watchlist.
pub open spec fn default_watchlist() -> Seq<Seq<char>> {
    seq!["K35R"@, "R135"@, "E3TF"@, "E3CF"@, "E6"@, "C130"@, "C17"@, "B52"@, "U2"@, "VC25"@, "A10"@]
}

/// The emergency squawks: hijack, radio failure, general emergency.
pub open spec fn default_squawks() -> Seq<Seq<char>> {
    seq!["7500"@, "7600"@, "7700"@]
}

/// The default zoom steps: 10, 20, 30, 50, 100, 185, 300 and 463 km.
pub open spec fn default_zooms() -> Seq<Double> {
    seq![
        Double { bits: 0x4024_0000_0000_0000 },
        Double { bits: 0x4034_0000_0000_0000 },
        Double { bits: 0x403e_0000_0000_0000 },
        Double { bits: 0x4049_0000_0000_0000 },
        Double { bits: 0x4059_0000_0000_0000 },
        Double { bits: 0x4067_2000_0000_0000 },
        Double { bits: 0x4072_c000_0000_0000 },
        Double { bits: 0x407c_f000_0000_0000 },
    ]
}

/// The default feeds.
pub open spec fn default_feeds() -> Seq<(Seq<char>, Seq<char>, Seq<char>)> {
    seq![
        (
            "adsb.lol"@,
            "https://api.adsb.lol/v2/lat/{lat}/lon/{lon}/dist/{nm}"@,
            "https://api.adsb.lol/v2/sqk/{sqk}"@,
        ),
        (
            "adsb.fi"@,
            "https://opendata.adsb.fi/api/v2/lat/{lat}/lon/{lon}/dist/{nm}"@,
            "https://opendata.adsb.fi/api/v2/sqk/{sqk}"@,
        ),
        (
            "airplanes.live"@,
            "https://api.airplanes.live/v2/point/{lat}/{lon}/{nm}"@,
            "https://api.airplanes.live/v2/squawk/{sqk}"@,
        ),
    ]
}

impl Default for Config {
    fn default() -> (r: Config)
        ensures
            r.home_lat.bits == HOME_LAT,
            r.home_lon.bits == HOME_LON,
            r.overhead_radius_km.bits == OVERHEAD_RADIUS_KM,
            r.overhead_ceiling_ft.bits == OVERHEAD_CEILING_FT,
            r.regional_radius_nm.bits == REGIONAL_RADIUS_NM,
            texts_of(r.watchlist@) == default_watchlist(),
            r.poll_local_secs == 5,
            r.poll_sqk_secs == 60,
            r.alert_cooldown_secs == 600,
            r.default_zoom_km.bits == DEFAULT_ZOOM_KM,
            r.zoom_steps_km@ == default_zooms(),
            texts_of(r.emergency_squawks@) == default_squawks(),
            !r.toast_sound,
            !r.wx_enabled,
            !r.alt_filter_on,
            r.alt_floor_ft.bits == ALT_FLOOR_FT,
            r.alt_ceiling_ft.bits == ALT_CEILING_FT,
            r.desktop_mode@ == "auto"@,
            feed_views(r.feeds@) == default_feeds(),
    {
        let watchlist: Vec<String> = vec![
            "K35R".to_owned(),
            "R135".to_owned(),
            "E3TF".to_owned(),
            "E3CF".to_owned(),
            "E6".to_owned(),
            "C130".to_owned(),
            "C17".to_owned(),
            "B52".to_owned(),
            "U2".to_owned(),
            "VC25".to_owned(),
            "A10".to_owned(),
        ];
        assert(texts_of(watchlist@) =~= default_watchlist());
        let zoom_steps_km: Vec<Double> = vec![
            Double { bits: 0x4024_0000_0000_0000 },
            Double { bits: 0x4034_0000_0000_0000 },
            Double { bits: 0x403e_0000_0000_0000 },
            Double { bits: 0x4049_0000_0000_0000 },
            Double { bits: 0x4059_0000_0000_0000 },
            Double { bits: 0x4067_2000_0000_0000 },
            Double { bits: 0x4072_c000_0000_0000 },
            Double { bits: 0x407c_f000_0000_0000 },
        ];
        assert(zoom_steps_km@ =~= default_zooms());
        let emergency_squawks: Vec<String> = vec![
            "7500".to_owned(),
            "7600".to_owned(),
            "7700".to_owned(),
        ];
        assert(texts_of(emergency_squawks@) =~= default_squawks());
        let feeds: Vec<Feed> = vec![
            Feed {
                name: "adsb.lol".to_owned(),
                point_url: "https://api.adsb.lol/v2/lat/{lat}/lon/{lon}/dist/{nm}".to_owned(),
                sqk_url: "https://api.adsb.lol/v2/sqk/{sqk}".to_owned(),
            },
            Feed {
                name: "adsb.fi".to_owned(),
                point_url: "https://opendata.adsb.fi/api/v2/lat/{lat}/lon/{lon}/dist/{nm}".to_owned(),
                sqk_url: "https://opendata.adsb.fi/api/v2/sqk/{sqk}".to_owned(),
            },
            Feed {
                name: "airplanes.live".to_owned(),
                point_url: "https://api.airplanes.live/v2/point/{lat}/{lon}/{nm}".to_owned(),
                sqk_url: "https://api.airplanes.live/v2/squawk/{sqk}".to_owned(),
            },
        ];
        assert(feed_views(feeds@) =~= default_feeds());
        Config {
            home_lat: Double { bits: HOME_LAT },
            home_lon: Double { bits: HOME_LON },
            overhead_radius_km: Double { bits: OVERHEAD_RADIUS_KM },
            overhead_ceiling_ft: Double { bits: OVERHEAD_CEILING_FT },
            regional_radius_nm: Double { bits: REGIONAL_RADIUS_NM },
            watchlist,
            poll_local_secs: 5,
            poll_sqk_secs: 60,
            alert_cooldown_secs: 600,
            default_zoom_km: Double { bits: DEFAULT_ZOOM_KM },
            zoom_steps_km,
            emergency_squawks,
            toast_sound: false,
            wx_enabled: false,
            alt_filter_on: false,
            alt_floor_ft: Double { bits: ALT_FLOOR_FT },
            alt_ceiling_ft: Double { bits: ALT_CEILING_FT },
            desktop_mode: "auto".to_owned(),
            feeds,
        }
    }
}

/// `s` without the byte order marks that it begins with.
pub open spec fn without_bom(s: Seq<char>) -> Seq<char>
    decreases s.len(),
{
    if s.len() > 0 && s[0] == '\u{feff}' {
        without_bom(s.skip(1))
    } else {
        s
    }
}

/// The text of a settings file without the byte order marks that some editors put in front.
pub fn strip_bom(text: &str) -> (r: String)
    ensures
        r@ == without_bom(text@),
{
    let v: Vec<char> = chars_of(text);
    let mut a: usize = 0;
    assert(v@.skip(0) == v@);
    while a < v.len() && v[a] == '\u{feff}'
        invariant
            a <= v@.len(),
            without_bom(v@) == without_bom(v@.skip(a as int)),
        decreases v@.len() - a,
    {
        assert(v@.skip(a as int).skip(1) == v@.skip(a as int + 1));
        a += 1;
    }
    assert(v@.subrange(a as int, v@.len() as int) == v@.skip(a as int));
    string_between(&v, a, v.len())
}

/// The settings start out with whole numbers: an overhead radius of 4 km up to 6000 ft, a region
/// of 100 nautical miles, a disc of 30 km out of eight steps from 10 to 463 km, and altitudes from
/// 0 to 50000 ft.
pub proof fn defaults_are_whole_numbers()
    ensures
        number(OVERHEAD_RADIUS_KM).units() == 4 * pow2(1074),
        number(OVERHEAD_CEILING_FT).units() == 6000 * pow2(1074),
        number(REGIONAL_RADIUS_NM).units() == 100 * pow2(1074),
        number(DEFAULT_ZOOM_KM).units() == 30 * pow2(1074),
        number(ALT_CEILING_FT).units() == 50000 * pow2(1074),
        number(ALT_FLOOR_FT).units() == 0,
        default_zooms().len() == 8,
        default_zooms()[0].units() == 10 * pow2(1074),
        default_zooms()[1].units() == 20 * pow2(1074),
        default_zooms()[2].units() == 30 * pow2(1074),
        default_zooms()[3].units() == 50 * pow2(1074),
        default_zooms()[4].units() == 100 * pow2(1074),
        default_zooms()[5].units() == 185 * pow2(1074),
        default_zooms()[6].units() == 300 * pow2(1074),
        default_zooms()[7].units() == 463 * pow2(1074),
{
    vstd::arithmetic::power2::lemma2_to64();
    vstd::arithmetic::power2::lemma2_to64_rest();
    lemma_whole_number(OVERHEAD_RADIUS_KM, 4, 50);
    lemma_whole_number(OVERHEAD_CEILING_FT, 6000, 40);
    lemma_whole_number(REGIONAL_RADIUS_NM, 100, 46);
    lemma_whole_number(DEFAULT_ZOOM_KM, 30, 48);
    lemma_whole_number(ALT_CEILING_FT, 50000, 37);
    lemma_whole_number(0x4024_0000_0000_0000, 10, 49);
    lemma_whole_number(0x4034_0000_0000_0000, 20, 48);
    lemma_whole_number(0x403e_0000_0000_0000, 30, 48);
    lemma_whole_number(0x4049_0000_0000_0000, 50, 47);
    lemma_whole_number(0x4059_0000_0000_0000, 100, 46);
    lemma_whole_number(0x4067_2000_0000_0000, 185, 45);
    lemma_whole_number(0x4072_c000_0000_0000, 300, 44);
    lemma_whole_number(0x407c_f000_0000_0000, 463, 44);
}

/// Every zoom step of the defaults is wider than the one before it, and the disc starts on one.
pub proof fn default_zooms_widen(i: int, j: int)
    requires
        0 <= i < j < default_zooms().len(),
    ensures
        default_zooms()[i].units() < default_zooms()[j].units(),
        default_zooms().contains(number(DEFAULT_ZOOM_KM)),
{
    defaults_are_whole_numbers();
    vstd::arithmetic::power2::lemma_pow2_pos(1074);
    assert(default_zooms()[2] == number(DEFAULT_ZOOM_KM));
}

/// The types that are watched, and the squawks that count as emergencies, unless the settings say
/// otherwise.
pub proof fn default_lists_are_these()
    ensures
        default_watchlist().len() == 11,
        default_watchlist()[0] == "K35R"@,
        default_watchlist()[1] == "R135"@,
        default_watchlist()[2] == "E3TF"@,
        default_watchlist()[3] == "E3CF"@,
        default_watchlist()[4] == "E6"@,
        default_watchlist()[5] == "C130"@,
        default_watchlist()[6] == "C17"@,
        default_watchlist()[7] == "B52"@,
        default_watchlist()[8] == "U2"@,
        default_watchlist()[9] == "VC25"@,
        default_watchlist()[10] == "A10"@,
        default_squawks().len() == 3,
        default_squawks()[0] == "7500"@,
        default_squawks()[1] == "7600"@,
        default_squawks()[2] == "7700"@,
{
}

/// Only byte order marks are taken away, and all of those in front: what is left does not begin
/// with one, and what stood before it was nothing else.
pub proof fn only_marks_are_stripped(s: Seq<char>)
    ensures
        without_bom(s).len() > 0 ==> without_bom(s)[0] != '\u{feff}',
        exists|k: int|
            0 <= k <= s.len() && without_bom(s) == #[trigger] s.skip(k) && forall|i: int|
                0 <= i < k ==> s[i] == '\u{feff}',
    decreases s.len(),
{
    if s.len() > 0 && s[0] == '\u{feff}' {
        let rest = s.skip(1);
        only_marks_are_stripped(rest);
        let k = choose|k: int|
            0 <= k <= rest.len() && without_bom(rest) == #[trigger] rest.skip(k) && forall|i: int|
                0 <= i < k ==> rest[i] == '\u{feff}';
        assert(rest.skip(k) =~= s.skip(k + 1));
        assert forall|i: int| 0 <= i < k + 1 implies s[i] == '\u{feff}' by {
            if i > 0 {
                assert(rest[i - 1] == s[i]);
            }
        }
    } else {
        assert(s.skip(0) =~= s);
    }
}

} // verus!
