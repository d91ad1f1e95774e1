use flightlogr::ogn::ddb::{devices_of_table, index_by_id, read_database, CsvTable, DdbError, Device, FieldIndexes};
use flightlogr::ogn::{AddressType, AircraftType, Beacon};

#[test]
fn test_deserialize_csv() {
    let database = r#"#DEVICE_TYPE,DEVICE_ID,AIRCRAFT_MODEL,REGISTRATION,CN,TRACKED,IDENTIFIED
'F','040893','X-Wing','SW-1234','BS','Y','Y'
'O','04CD01','Drone','HS','HS','Y','N'
'F','06DDC1','LS-32','AA-BCD','A2','N','Y'"#;
    let devices: Vec<Device> = read_database(database.as_bytes()).expect("should parse");

    assert_eq!(devices.len(), 3);
    assert_eq!(devices[0].id, 0x040893);
    assert_eq!(devices[0].typ, 'F');
    assert_eq!(devices[0].model, "X-Wing");
    assert_eq!(devices[0].registration, "SW-1234");
    assert_eq!(devices[0].common_name, "BS");
    assert_eq!(devices[0].is_tracked, true);
    assert_eq!(devices[0].identified, true);
}

#[test]
fn test_parse() {
    assert_eq!(
        "06DF0A52".parse::<Beacon>().expect("should parse"),
        Beacon {
            stealth: false,
            no_tracking: false,
            aircraft_type: AircraftType::Glider,
            address_type: AddressType::Flarm,
            address: 0xDF0A52,
        }
    );

    assert_eq!(
        "CD3E0F90".parse::<Beacon>().expect("should parse"),
        Beacon {
            stealth: true,
            no_tracking: true,
            aircraft_type: AircraftType::Helicopter,
            address_type: AddressType::ICAO,
            address: 0x3E0F90,
        }
    );
}

#[test]
fn beacon_rejects_what_from_str_radix_rejects() {
    assert!("".parse::<Beacon>().is_err());
    assert!("+".parse::<Beacon>().is_err());
    assert!("-1".parse::<Beacon>().is_err());
    assert!("1G".parse::<Beacon>().is_err());
    assert!("100000000".parse::<Beacon>().is_err());
    assert_eq!("+ffffffff".parse::<Beacon>().expect("should parse").address, 0xFFFFFF);
    assert_eq!(
        "00000001".parse::<Beacon>().expect("should parse"),
        Beacon {
            stealth: false,
            no_tracking: false,
            aircraft_type: AircraftType::Reserved,
            address_type: AddressType::Unknown,
            address: 1,
        }
    );
}

#[test]
fn aircraft_and_address_types_round_trip() {
    for i in 0u8..16 {
        let t: AircraftType = i.into();
        let back: u8 = t.into();
        assert_eq!(back, i);
    }
    assert_eq!(AircraftType::from(200u8), AircraftType::Unknown);
    for i in 0u8..4 {
        let t: AddressType = i.into();
        let back: u8 = t.into();
        assert_eq!(back, i);
    }
    assert_eq!(AddressType::from(9u8), AddressType::Unknown);
}

#[test]
fn device_id_in_upper_hex() {
    let d = Device {
        id: 0x04CD01,
        typ: 'O',
        model: "Drone".to_string(),
        registration: "HS".to_string(),
        common_name: "HS".to_string(),
        is_tracked: true,
        identified: false,
    };
    assert_eq!(d.id_str(), "4CD01");
}

#[test]
fn database_errors() {
    let missing_column = "#DEVICE_TYPE,DEVICE_ID,AIRCRAFT_MODEL,REGISTRATION,CN,TRACKED\n'F','040893','X','Y','Z','Y'";
    assert_eq!(read_database(missing_column.as_bytes()).unwrap_err(), DdbError::MissingField);

    let header = "#DEVICE_TYPE,DEVICE_ID,AIRCRAFT_MODEL,REGISTRATION,CN,TRACKED,IDENTIFIED\n";
    let bad_id = format!("{header}'F','04089Z','X','Y','Z','Y','Y'");
    assert_eq!(read_database(bad_id.as_bytes()).unwrap_err(), DdbError::InvalidId);
    let bad_bool = format!("{header}'F','040893','X','Y','Z','yes','Y'");
    assert_eq!(read_database(bad_bool.as_bytes()).unwrap_err(), DdbError::InvalidBool);
    let empty_type = format!("{header}'','040893','X','Y','Z','y','n'");
    assert_eq!(read_database(empty_type.as_bytes()).unwrap_err(), DdbError::EmptyType);
    let short = format!("{header}'F','040893'");
    assert!(read_database(short.as_bytes()).is_err());
    let ok = format!("{header}'F','040893','X','Y','Z','y','n'");
    let devices = read_database(ok.as_bytes()).expect("should parse");
    assert_eq!(devices[0].is_tracked, true);
    assert_eq!(devices[0].identified, false);
}

#[test]
fn parse_bool_accepts_both_cases() {
    assert_eq!(FieldIndexes::parse_bool("Y"), Ok(true));
    assert_eq!(FieldIndexes::parse_bool("y"), Ok(true));
    assert_eq!(FieldIndexes::parse_bool("N"), Ok(false));
    assert_eq!(FieldIndexes::parse_bool("n"), Ok(false));
    assert_eq!(FieldIndexes::parse_bool("yes"), Err(DdbError::InvalidBool));
    assert_eq!(FieldIndexes::parse_bool(""), Err(DdbError::InvalidBool));
}

#[test]
fn index_by_id_keeps_the_last_device() {
    let make = |id: u32, model: &str| Device {
        id,
        typ: 'F',
        model: model.to_string(),
        registration: String::new(),
        common_name: String::new(),
        is_tracked: true,
        identified: true,
    };
    let index = index_by_id(vec![make(1, "a"), make(2, "b"), make(1, "c")]);
    assert_eq!(index.len(), 2);
    assert_eq!(index[&1].model, "c");
    assert_eq!(index[&2].model, "b");
}

fn device(id: u32) -> Device {
    Device {
        id,
        typ: 'F',
        model: String::new(),
        registration: String::new(),
        common_name: String::new(),
        is_tracked: true,
        identified: true,
    }
}

#[test]
fn id_str_reads_back_as_the_id() {
    for id in [0u32, 1, 0x0A, 0x040893, 0xDDA5BA, u32::MAX] {
        let text = device(id).id_str();
        assert!(!text.is_empty());
        assert!(text.chars().all(|c| c.is_ascii_digit() || ('A'..='F').contains(&c)));
        assert!(id == 0 || !text.starts_with('0'));
        assert_eq!(u32::from_str_radix(&text, 16), Ok(id));
    }
    assert_eq!(device(0).id_str(), "0");
}

fn strings(fields: &[&str]) -> Vec<String> {
    fields.iter().map(|f| f.to_string()).collect()
}

#[test]
fn devices_of_a_table() {
    let header = strings(&["#DEVICE_TYPE", "DEVICE_ID", "AIRCRAFT_MODEL", "REGISTRATION", "CN", "TRACKED", "IDENTIFIED"]);
    let record = strings(&["F", "040893", "X-Wing", "SW-1234", "BS", "Y", "n"]);
    let table = CsvTable { header: header.clone(), records: vec![record.clone()], failed: false };
    let devices = devices_of_table(&table).unwrap();
    assert_eq!(devices.len(), 1);
    assert_eq!(devices[0].id, 0x040893);
    assert_eq!(devices[0].model, "X-Wing");
    assert!(devices[0].is_tracked && !devices[0].identified);
    // A reader that stopped on an error fails after the records it read.
    let table = CsvTable { header: header.clone(), records: vec![record.clone()], failed: true };
    assert_eq!(devices_of_table(&table).unwrap_err(), DdbError::Csv);
    // A record error comes first.
    let bad = strings(&["F", "04089Z", "X-Wing", "SW-1234", "BS", "Y", "n"]);
    let table = CsvTable { header, records: vec![bad], failed: true };
    assert_eq!(devices_of_table(&table).unwrap_err(), DdbError::InvalidId);
}
