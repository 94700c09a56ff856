use std::cmp::Ordering;

use astro_data_vault::record::{Epoch, OrbitFormat, OrbitRecord, SatelliteIdRecord};

#[test]
fn format_names() {
    assert_eq!(OrbitFormat::TLE.as_str(), "TLE");
    assert_eq!(OrbitFormat::OMM.as_str(), "OMM");
}

#[test]
fn format_name_reads_back() {
    for f in [OrbitFormat::TLE, OrbitFormat::OMM] {
        assert_eq!(OrbitFormat::from_db_str(f.as_str()), f);
    }
}

#[test]
fn unknown_format_names_read_as_tle() {
    assert_eq!(OrbitFormat::from_db_str("omm"), OrbitFormat::TLE);
    assert_eq!(OrbitFormat::from_db_str("OMM "), OrbitFormat::TLE);
    assert_eq!(OrbitFormat::from_db_str(""), OrbitFormat::TLE);
    assert_eq!(OrbitFormat::from_db_str("XML"), OrbitFormat::TLE);
}

#[test]
fn satellite_record_new_keeps_fields() {
    let r = SatelliteIdRecord::new("25544".to_string(), "ISS (ZARYA)".to_string());
    assert_eq!(r.catalog_id, "25544");
    assert_eq!(r.satellite_name, "ISS (ZARYA)");
}

#[test]
fn satellite_records_compare_by_catalog_id_alone() {
    let a = SatelliteIdRecord::new("25544".to_string(), "ISS (ZARYA)".to_string());
    let b = SatelliteIdRecord::new("25544".to_string(), "ISS".to_string());
    let c = SatelliteIdRecord::new("25545".to_string(), "ISS (ZARYA)".to_string());
    let d = SatelliteIdRecord::new("2554".to_string(), "ISS (ZARYA)".to_string());
    assert!(a == b);
    assert_eq!(a.partial_cmp(&b), Some(Ordering::Equal));
    assert!(a != c);
    assert!(a < c);
    assert_eq!(c.cmp(&a), Ordering::Greater);
    assert!(d < a);
    assert_eq!(a.cmp(&d), Ordering::Greater);
}

#[test]
fn satellite_order_follows_utf8_bytes() {
    let a = SatelliteIdRecord::new("Z".to_string(), String::new());
    let b = SatelliteIdRecord::new("é".to_string(), String::new());
    assert_eq!(a.cmp(&b), "Z".cmp("é"));
    assert_eq!(b.cmp(&a), Ordering::Greater);
}

fn orbit(db_id: usize, format: OrbitFormat, raw: &'static str) -> OrbitRecord {
    OrbitRecord::new(
        db_id,
        format,
        "25544".to_string(),
        Epoch { unix_seconds: 1_093_000_000, subsec_nanos: 0 },
        bytes::Bytes::from(raw),
    )
}

#[test]
fn orbit_record_new_keeps_fields() {
    let r = orbit(7, OrbitFormat::OMM, "1 25544U...");
    assert_eq!(r.db_id, 7);
    assert_eq!(r.format, OrbitFormat::OMM);
    assert_eq!(r.catalog_id, "25544");
    assert_eq!(r.epoch, Epoch { unix_seconds: 1_093_000_000, subsec_nanos: 0 });
    assert_eq!(r.raw_data, bytes::Bytes::from("1 25544U..."));
}

#[test]
fn orbit_records_are_ordered_by_key_alone() {
    let a = orbit(1, OrbitFormat::TLE, "x");
    let b = orbit(1, OrbitFormat::OMM, "y");
    let c = orbit(2, OrbitFormat::TLE, "x");
    assert_eq!(a.partial_cmp(&b), Some(Ordering::Equal));
    assert!(a != b);
    assert!(a < c);
    assert_eq!(c.cmp(&a), Ordering::Greater);
    assert!(a == a.clone());
}

#[test]
fn satellite_order_is_transitive_and_antisymmetric() {
    let ids = ["", "1", "10", "2", "25544", "A", "a", "é"];
    let recs: Vec<SatelliteIdRecord> = ids
        .iter()
        .map(|id| SatelliteIdRecord::new(id.to_string(), "n".to_string()))
        .collect();
    for a in &recs {
        for b in &recs {
            assert_eq!(b.cmp(a), a.cmp(b).reverse());
            assert_eq!(a == b, a.cmp(b) == Ordering::Equal);
            assert_eq!(a.cmp(b), a.catalog_id.cmp(&b.catalog_id));
            for c in &recs {
                if a.cmp(b) == Ordering::Less && b.cmp(c) == Ordering::Less {
                    assert_eq!(a.cmp(c), Ordering::Less);
                }
            }
        }
    }
}
