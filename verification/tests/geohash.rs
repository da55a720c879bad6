//! The three operations on concrete inputs: reference fixtures, edge cases,
//! and spot checks of the laws on chosen values.

use geohash_core::Coordinate;
use geohash_core::Direction;
use geohash_core::GeohashError;
use geohash_core::decode;
use geohash_core::encode;
use geohash_core::neighbor;

const SCALE: f64 = 4294967296.0;

fn coord(lon_deg: f64, lat_deg: f64) -> Coordinate {
    Coordinate {
        lon: (lon_deg * SCALE).floor() as i64,
        lat: (lat_deg * SCALE).floor() as i64,
    }
}

fn degrees(v: i64) -> f64 {
    v as f64 / SCALE
}

#[test]
fn encode_fixture() {
    let c = coord(-5.60302734375, 42.60498046875);
    assert_eq!(encode(&c, 5).unwrap(), "ezs42");
}

#[test]
fn decode_fixture() {
    let cell = decode("ezs42").unwrap();
    assert!((degrees(cell.center.lon) - -5.60302734375).abs() < 1e-6);
    assert!((degrees(cell.center.lat) - 42.60498046875).abs() < 1e-6);
}

#[test]
fn neighbor_north_fixture() {
    assert_eq!(neighbor("ezs42", Direction::N).unwrap(), "ezs48");
}

#[test]
fn decode_empty_input() {
    assert_eq!(decode(""), Err(GeohashError::EmptyInput));
}

#[test]
fn decode_rejects_characters_outside_alphabet() {
    assert_eq!(decode("invalid"), Err(GeohashError::InvalidCharacter));
}

#[test]
fn decode_rejects_uppercase() {
    assert_eq!(decode("EZS42"), Err(GeohashError::InvalidCharacter));
}

#[test]
fn decode_rejects_overlong_hash() {
    assert_eq!(decode("0123456789bcd"), Err(GeohashError::InvalidPrecision));
}

#[test]
fn direction_code_out_of_range() {
    assert_eq!(Direction::from_code(8), Err(GeohashError::InvalidDirection));
    assert_eq!(Direction::from_code(-1), Err(GeohashError::InvalidDirection));
    assert_eq!(Direction::from_code(0), Ok(Direction::N));
    assert_eq!(Direction::from_code(7), Ok(Direction::NW));
}

#[test]
fn encode_rejects_precision_zero() {
    let c = coord(10.0, 10.0);
    assert_eq!(encode(&c, 0), Err(GeohashError::InvalidPrecision));
}

#[test]
fn encode_rejects_precision_thirteen() {
    let c = coord(10.0, 10.0);
    assert_eq!(encode(&c, 13), Err(GeohashError::InvalidPrecision));
}

#[test]
fn encode_is_deterministic() {
    let c = coord(-87.6298, 41.8781);
    assert_eq!(encode(&c, 9).unwrap(), encode(&c, 9).unwrap());
}

#[test]
fn encode_length_matches_precision() {
    let c = coord(2.3522, 48.8566);
    for p in 1..=12usize {
        assert_eq!(encode(&c, p).unwrap().len(), p);
    }
}

#[test]
fn neighbor_length_matches_input() {
    let c = coord(151.2093, -33.8688);
    for p in 1..=12usize {
        let h = encode(&c, p).unwrap();
        assert_eq!(neighbor(&h, Direction::NE).unwrap().len(), p);
    }
}

#[test]
fn encoded_characters_stay_in_alphabet() {
    let alphabet = "0123456789bcdefghjkmnpqrstuvwxyz";
    let coords = [
        coord(0.0, 0.0),
        coord(-180.0, -90.0),
        coord(180.0, 90.0),
        coord(139.6917, 35.6895),
        coord(-43.1729, -22.9068),
    ];
    for c in coords.iter() {
        let h = encode(c, 12).unwrap();
        for ch in h.chars() {
            assert!(alphabet.contains(ch));
        }
    }
}

#[test]
fn round_trip_center_within_error() {
    let coords = [
        coord(0.0, 0.0),
        coord(-5.60302734375, 42.60498046875),
        coord(179.99, -89.99),
        coord(-122.4194, 37.7749),
        coord(13.4050, 52.5200),
    ];
    for c in coords.iter() {
        for p in 1..=12usize {
            let h = encode(c, p).unwrap();
            let cell = decode(&h).unwrap();
            assert!((cell.center.lon - c.lon).abs() <= cell.lon_err);
            assert!((cell.center.lat - c.lat).abs() <= cell.lat_err);
        }
    }
}

#[test]
fn opposite_directions_cancel() {
    let pairs = [
        (Direction::N, Direction::S),
        (Direction::S, Direction::N),
        (Direction::E, Direction::W),
        (Direction::W, Direction::E),
        (Direction::NE, Direction::SW),
        (Direction::SW, Direction::NE),
        (Direction::NW, Direction::SE),
        (Direction::SE, Direction::NW),
    ];
    for (there, back) in pairs.iter() {
        let step = neighbor("ezs42", *there).unwrap();
        assert_eq!(neighbor(&step, *back).unwrap(), "ezs42");
    }
}

#[test]
fn east_west_wrap_around_antimeridian() {
    let eastmost = encode(&coord(179.999, 10.0), 5).unwrap();
    let wrapped = neighbor(&eastmost, Direction::E).unwrap();
    assert_ne!(wrapped, eastmost);
    assert_eq!(neighbor(&wrapped, Direction::W).unwrap(), eastmost);
}

#[test]
fn north_clamps_at_the_pole() {
    let top = encode(&coord(0.0, 89.999), 3).unwrap();
    assert_eq!(neighbor(&top, Direction::N).unwrap(), top);
}

#[test]
fn decoded_errors_shrink_with_precision() {
    let c = coord(8.5417, 47.3769);
    let coarse = decode(&encode(&c, 3).unwrap()).unwrap();
    let fine = decode(&encode(&c, 9).unwrap()).unwrap();
    assert!(fine.lon_err < coarse.lon_err);
    assert!(fine.lat_err < coarse.lat_err);
}
