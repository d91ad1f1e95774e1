//! The OGN device database: a CSV file (comma separated, single quotes) whose header names
//! the columns, one device per record.
use crate::text::{
    is_digit_char, parse_int, parse_int_spec, push_radix, radix_chars, radix_chars_read_back,
};
use std::collections::HashMap;
use vstd::prelude::*;
use vstd::string::{StrSliceExecFns, StringSliceAdditionalSpecFns};
use vstd::utf8::encode_utf8;

verus! {

broadcast use vstd::std_specs::hash::group_hash_axioms;

pub const OGN_DDB_URL: &'static str = "https://ddb.glidernet.org/download/";

#[derive(Clone, Debug, Eq, PartialEq)]
pub struct Device {
    pub id: u32,
    pub typ: char,
    pub model: String,
    pub registration: String,
    pub common_name: String,
    pub is_tracked: bool,
    pub identified: bool,
}

#[verifier::ext_equal]
pub struct DeviceView {
    pub id: u32,
    pub typ: char,
    pub model: Seq<char>,
    pub registration: Seq<char>,
    pub common_name: Seq<char>,
    pub is_tracked: bool,
    pub identified: bool,
}

impl View for Device {
    type V = DeviceView;

    open spec fn view(&self) -> DeviceView {
        DeviceView {
            id: self.id,
            typ: self.typ,
            model: self.model@,
            registration: self.registration@,
            common_name: self.common_name@,
            is_tracked: self.is_tracked,
            identified: self.identified,
        }
    }
}

impl Device {
    /// The identifier in upper-case hexadecimal.
    pub fn id_str(&self) -> (r: String)
        ensures
            r@ == radix_chars(self.id as nat, 16),
    {
        let mut s = String::new();
        push_radix(&mut s, self.id as u64, 16);
        s
    }
}

/// `id_str` writes the identifier in upper-case hexadecimal: at least one digit, no leading
/// zero but for the identifier 0, and the text reads back, as `u32::from_str_radix(.., 16)`
/// reads it, as the identifier.
pub proof fn id_str_reads_back(id: u32)
    ensures
        radix_chars(id as nat, 16).len() >= 1,
        forall|i: int|
            0 <= i < radix_chars(id as nat, 16).len() ==> is_digit_char(
                #[trigger] radix_chars(id as nat, 16)[i],
                16,
            ),
        id > 0 ==> radix_chars(id as nat, 16)[0] != '0',
        parse_int_spec(encode_utf8(radix_chars(id as nat, 16)), 16, false, 0, u32::MAX as int) == Some(
            id as int,
        ),
{
    radix_chars_read_back(id as nat, 16);
    let b = encode_utf8(radix_chars(id as nat, 16));
    assert(crate::text::is_radix_digit(b[0], 16));
}

/// Why the database could not be read.
#[derive(Clone, Copy, Debug, Eq, PartialEq, Structural)]
pub enum DdbError {
    /// The CSV reader failed.
    Csv,
    /// The header lacks a column.
    MissingField,
    /// A record lacks a column.
    MissingValue,
    /// The device identifier is no 32-bit hexadecimal number.
    InvalidId,
    /// The device type is empty.
    EmptyType,
    /// A flag is neither `Y`, `y`, `N` nor `n`.
    InvalidBool,
}

/// The header and the records of a CSV text, as far as the reader read them, and whether
/// it stopped on an error.
pub struct CsvTable {
    pub header: Vec<String>,
    pub records: Vec<Vec<String>>,
    pub failed: bool,
}

pub open spec fn strings_view(v: Seq<String>) -> Seq<Seq<char>> {
    v.map_values(|s: String| s@)
}

pub open spec fn table_view(t: CsvTable) -> (Seq<Seq<char>>, Seq<Seq<Seq<char>>>, bool) {
    (strings_view(t.header@), t.records@.map_values(|r: Vec<String>| strings_view(r@)), t.failed)
}

/// What the csv crate reads from the database text: the header, the records up to the first
/// faulty one, and whether there is one; `None` where the header cannot be read.
pub uninterp spec fn ogn_csv_table(input: Seq<u8>) -> Option<(Seq<Seq<char>>, Seq<Seq<Seq<char>>>, bool)>;

/// Reads the text with a `csv::ReaderBuilder` set to the database's delimiter (`,`) and quote
/// (`'`): `Reader::headers`, then the records of `Reader::into_records` up to the first
/// error. The contract names what is read; it leaves the CSV format unsaid.
#[verifier::external_body]
fn read_csv_table(input: &[u8]) -> (r: Option<CsvTable>)
    ensures
        match r {
            Some(t) => ogn_csv_table(input@) == Some(table_view(t)),
            None => ogn_csv_table(input@) is None,
        },
{
    let mut reader = csv::ReaderBuilder::new().delimiter(b',').quote(b'\'').from_reader(input);
    let header: Vec<String> = match reader.headers() {
        Ok(h) => h.iter().map(|f| f.to_string()).collect(),
        Err(_) => return None,
    };
    let mut records = Vec::new();
    for record in reader.into_records() {
        match record {
            Ok(rec) => records.push(rec.iter().map(|f| f.to_string()).collect()),
            Err(_) => return Some(CsvTable { header, records, failed: true }),
        }
    }
    Some(CsvTable { header, records, failed: false })
}

/// The text without its leading `#` (the OGN database writes its header as a comment).
pub open spec fn trim_hashes(s: Seq<char>) -> Seq<char>
    decreases s.len(),
{
    if s.len() > 0 && s[0] == '#' {
        trim_hashes(s.drop_first())
    } else {
        s
    }
}

fn trim_hashes_exec(s: &String) -> (r: String)
    ensures
        r@ == trim_hashes(s@),
{
    let st = s.as_str();
    let n = st.unicode_len();
    let mut k: usize = 0;
    assert(s@.skip(0) =~= s@);
    while k < n && st.get_char(k) == '#'
        invariant
            k <= n == s@.len(),
            st@ == s@,
            trim_hashes(s@) == trim_hashes(s@.skip(k as int)),
        decreases n - k,
    {
        assert(s@.skip(k as int).drop_first() =~= s@.skip(k + 1));
        k = k + 1;
    }
    assert(s@.skip(k as int) =~= s@.subrange(k as int, n as int));
    st.substring_char(k, n).to_owned()
}

/// Remove the leading '#' from the headers, because the OGN database adds a '#' to the CSV header
/// as if it's a comment.
pub fn fix_headers(header: &Vec<String>) -> (r: Vec<String>)
    ensures
        strings_view(r@) == strings_view(header@).map_values(|s: Seq<char>| trim_hashes(s)),
{
    let mut out: Vec<String> = Vec::new();
    let mut i: usize = 0;
    while i < header.len()
        invariant
            i <= header@.len(),
            strings_view(out@) =~= strings_view(header@.take(i as int)).map_values(
                |s: Seq<char>| trim_hashes(s),
            ),
        decreases header@.len() - i,
    {
        let f = trim_hashes_exec(&header[i]);
        let ghost before = strings_view(out@);
        out.push(f);
        assert(strings_view(out@) =~= before.push(f@));
        assert(header@.take(i + 1) =~= header@.take(i as int).push(header@[i as int]));
        assert(strings_view(header@.take(i + 1)) =~= strings_view(header@.take(i as int)).push(
            header@[i as int]@,
        ));
        i = i + 1;
    }
    assert(header@.take(i as int) =~= header@);
    out
}

/// The first column whose name is `field`.
pub open spec fn find_field(h: Seq<Seq<char>>, field: Seq<char>, from: int) -> Option<int>
    decreases h.len() - from,
{
    if from < 0 || from >= h.len() {
        None
    } else if h[from] == field {
        Some(from)
    } else {
        find_field(h, field, from + 1)
    }
}

/// The columns of each device attribute.
#[derive(Clone, Copy, Debug, Eq, PartialEq, Structural)]
pub struct FieldIndexes {
    pub id: usize,
    pub typ: usize,
    pub model: usize,
    pub registration: usize,
    pub common_name: usize,
    pub is_tracked: usize,
    pub identified: usize,
}

/// Columns `DEVICE_ID`, `DEVICE_TYPE`, `AIRCRAFT_MODEL`, `REGISTRATION`, `CN`, `TRACKED`,
/// `IDENTIFIED` of the header.
pub open spec fn indexes_spec(h: Seq<Seq<char>>) -> Result<FieldIndexes, DdbError> {
    match (
        find_field(h, "DEVICE_ID"@, 0),
        find_field(h, "DEVICE_TYPE"@, 0),
        find_field(h, "AIRCRAFT_MODEL"@, 0),
        find_field(h, "REGISTRATION"@, 0),
        find_field(h, "CN"@, 0),
        find_field(h, "TRACKED"@, 0),
        find_field(h, "IDENTIFIED"@, 0),
    ) {
        (Some(id), Some(typ), Some(model), Some(registration), Some(common_name), Some(is_tracked), Some(identified)) => Ok(FieldIndexes {
            id: id as usize,
            typ: typ as usize,
            model: model as usize,
            registration: registration as usize,
            common_name: common_name as usize,
            is_tracked: is_tracked as usize,
            identified: identified as usize,
        }),
        _ => Err(DdbError::MissingField),
    }
}

/// A flag: `Y` or `y` is true, `N` or `n` false.
pub open spec fn bool_spec(s: Seq<char>) -> Option<bool> {
    if s == seq!['Y'] || s == seq!['y'] {
        Some(true)
    } else if s == seq!['N'] || s == seq!['n'] {
        Some(false)
    } else {
        None
    }
}

/// The device that a record describes, with the columns of `ix`.
#[verifier::opaque]
pub open spec fn record_spec(rec: Seq<Seq<char>>, ix: FieldIndexes) -> Result<DeviceView, DdbError> {
    if ix.id >= rec.len() {
        Err(DdbError::MissingValue)
    } else {
        match parse_int_spec(encode_utf8(rec[ix.id as int]), 16, false, 0, u32::MAX as int) {
            None => Err(DdbError::InvalidId),
            Some(id) => if ix.typ >= rec.len() || ix.model >= rec.len() || ix.registration
                >= rec.len() || ix.common_name >= rec.len() || ix.is_tracked >= rec.len()
                || ix.identified >= rec.len() {
                Err(DdbError::MissingValue)
            } else {
                match (bool_spec(rec[ix.is_tracked as int]), bool_spec(rec[ix.identified as int])) {
                    (Some(is_tracked), Some(identified)) => if rec[ix.typ as int].len() == 0 {
                        Err(DdbError::EmptyType)
                    } else {
                        Ok(
                            DeviceView {
                                id: id as u32,
                                typ: rec[ix.typ as int][0],
                                model: rec[ix.model as int],
                                registration: rec[ix.registration as int],
                                common_name: rec[ix.common_name as int],
                                is_tracked,
                                identified,
                            },
                        )
                    },
                    _ => Err(DdbError::InvalidBool),
                }
            },
        }
    }
}

/// The devices of the records, or the first error; `failed` is an error after them.
pub open spec fn records_spec(recs: Seq<Seq<Seq<char>>>, ix: FieldIndexes, failed: bool) -> Result<
    Seq<DeviceView>,
    DdbError,
>
    decreases recs.len(),
{
    if recs.len() == 0 {
        if failed {
            Err(DdbError::Csv)
        } else {
            Ok(Seq::empty())
        }
    } else {
        match record_spec(recs[0], ix) {
            Err(e) => Err(e),
            Ok(d) => match records_spec(recs.drop_first(), ix, failed) {
                Err(e) => Err(e),
                Ok(ds) => Ok(seq![d] + ds),
            },
        }
    }
}

/// The devices of a table read from a database text (header, records, whether the reader
/// stopped on an error), or the first error.
pub open spec fn table_devices_spec(t: (Seq<Seq<char>>, Seq<Seq<Seq<char>>>, bool)) -> Result<
    Seq<DeviceView>,
    DdbError,
> {
    match indexes_spec(t.0.map_values(|s: Seq<char>| trim_hashes(s))) {
        Err(e) => Err(e),
        Ok(ix) => records_spec(t.1, ix, t.2),
    }
}

/// The devices of a database text, or the first error.
pub open spec fn database_spec(input: Seq<u8>) -> Result<Seq<DeviceView>, DdbError> {
    match ogn_csv_table(input) {
        None => Err(DdbError::Csv),
        Some(t) => table_devices_spec(t),
    }
}

pub open spec fn devices_view(ds: Seq<Device>) -> Seq<DeviceView> {
    ds.map_values(|d: Device| d@)
}

impl FieldIndexes {
    fn find_field_index(header: &Vec<String>, field: &str) -> (r: Option<usize>)
        ensures
            match (r, find_field(strings_view(header@), field@, 0)) {
                (Some(a), Some(b)) => a == b,
                (None, None) => true,
                _ => false,
            },
    {
        let target = field.to_owned();
        let ghost h = strings_view(header@);
        let mut i: usize = 0;
        while i < header.len()
            invariant
                i <= header@.len(),
                h == strings_view(header@),
                target@ == field@,
                find_field(h, field@, 0) == find_field(h, field@, i as int),
            decreases header@.len() - i,
        {
            if header[i] == target {
                return Some(i);
            }
            i = i + 1;
        }
        None
    }

    pub fn get_indexes(header: &Vec<String>) -> (r: Result<FieldIndexes, DdbError>)
        ensures
            r == indexes_spec(strings_view(header@)),
    {
        let id = Self::find_field_index(header, "DEVICE_ID");
        let typ = Self::find_field_index(header, "DEVICE_TYPE");
        let model = Self::find_field_index(header, "AIRCRAFT_MODEL");
        let registration = Self::find_field_index(header, "REGISTRATION");
        let common_name = Self::find_field_index(header, "CN");
        let is_tracked = Self::find_field_index(header, "TRACKED");
        let identified = Self::find_field_index(header, "IDENTIFIED");
        match (id, typ, model, registration, common_name, is_tracked, identified) {
            (Some(id), Some(typ), Some(model), Some(registration), Some(common_name), Some(is_tracked), Some(identified)) => Ok(FieldIndexes { id, typ, model, registration, common_name, is_tracked, identified }),
            _ => Err(DdbError::MissingField),
        }
    }

    pub fn parse_bool(b: &str) -> (r: Result<bool, DdbError>)
        ensures
            match bool_spec(b@) {
                Some(v) => r == Ok::<bool, DdbError>(v),
                None => r == Err::<bool, DdbError>(DdbError::InvalidBool),
            },
    {
        if b.unicode_len() == 1 {
            let c = b.get_char(0);
            if c == 'Y' || c == 'y' {
                assert(b@ =~= seq![c]);
                return Ok(true);
            }
            if c == 'N' || c == 'n' {
                assert(b@ =~= seq![c]);
                return Ok(false);
            }
        }
        Err(DdbError::InvalidBool)
    }

    pub fn parse_device_record(&self, record: &Vec<String>) -> (r: Result<Device, DdbError>)
        ensures
            match (r, record_spec(strings_view(record@), *self)) {
                (Ok(d), Ok(v)) => d@ == v,
                (Err(a), Err(b)) => a == b,
                _ => false,
            },
    {
        reveal(record_spec);
        let n = record.len();
        if self.id >= n {
            return Err(DdbError::MissingValue);
        }
        let id_bytes = record[self.id].as_str().as_bytes();
        assert(id_bytes@.subrange(0, id_bytes@.len() as int) =~= id_bytes@);
        let id = match parse_int(id_bytes, 0, id_bytes.len(), 16, false, 0, u32::MAX as i64) {
            Some(v) => v as u32,
            None => return Err(DdbError::InvalidId),
        };
        if self.typ >= n || self.model >= n || self.registration >= n || self.common_name >= n
            || self.is_tracked >= n || self.identified >= n {
            return Err(DdbError::MissingValue);
        }
        let is_tracked = match Self::parse_bool(record[self.is_tracked].as_str()) {
            Ok(v) => v,
            Err(e) => return Err(e),
        };
        let identified = match Self::parse_bool(record[self.identified].as_str()) {
            Ok(v) => v,
            Err(e) => return Err(e),
        };
        let typ_str = record[self.typ].as_str();
        if typ_str.unicode_len() == 0 {
            return Err(DdbError::EmptyType);
        }
        let typ = typ_str.get_char(0);
        Ok(
            Device {
                id,
                typ,
                model: record[self.model].clone(),
                registration: record[self.registration].clone(),
                common_name: record[self.common_name].clone(),
                is_tracked,
                identified,
            },
        )
    }
}

proof fn lemma_records_unfold(recs: Seq<Seq<Seq<char>>>, i: int, ix: FieldIndexes, failed: bool)
    requires
        0 <= i < recs.len(),
    ensures
        records_spec(recs.skip(i), ix, failed) == match record_spec(recs[i], ix) {
            Err(e) => Err(e),
            Ok(d) => match records_spec(recs.skip(i + 1), ix, failed) {
                Err(e) => Err(e),
                Ok(ds) => Ok(seq![d] + ds),
            },
        },
{
    assert(recs.skip(i)[0] == recs[i]);
    assert(recs.skip(i).drop_first() =~= recs.skip(i + 1));
}

/// The devices of a table read from a database text, or the first error.
#[verifier::rlimit(80)]
pub fn devices_of_table(table: &CsvTable) -> (r: Result<Vec<Device>, DdbError>)
    ensures
        match (r, table_devices_spec(table_view(*table))) {
            (Ok(ds), Ok(vs)) => devices_view(ds@) == vs,
            (Err(a), Err(b)) => a == b,
            _ => false,
        },
{
    let header = fix_headers(&table.header);
    let ix = match FieldIndexes::get_indexes(&header) {
        Ok(ix) => ix,
        Err(e) => return Err(e),
    };
    let ghost recs = table.records@.map_values(|r: Vec<String>| strings_view(r@));
    let mut out: Vec<Device> = Vec::new();
    let mut i: usize = 0;
    assert(recs.skip(0) =~= recs);
    while i < table.records.len()
        invariant
            i <= table.records@.len(),
            recs == table.records@.map_values(|r: Vec<String>| strings_view(r@)),
            table_devices_spec(table_view(*table)) == records_spec(recs, ix, table.failed),
            records_spec(recs, ix, table.failed) == match records_spec(recs.skip(i as int), ix, table.failed) {
                Ok(ds) => Ok(devices_view(out@) + ds),
                Err(e) => Err(e),
            },
        decreases table.records@.len() - i,
    {
        proof {
            lemma_records_unfold(recs, i as int, ix, table.failed);
        }
        assert(recs[i as int] == strings_view(table.records@[i as int]@));
        match ix.parse_device_record(&table.records[i]) {
            Ok(d) => {
                let ghost before = devices_view(out@);
                out.push(d);
                assert(devices_view(out@) =~= before.push(d@));
                proof {
                    match records_spec(recs.skip(i + 1), ix, table.failed) {
                        Ok(ds) => {
                            assert(before + (seq![d@] + ds) =~= before.push(d@) + ds);
                        },
                        Err(_) => {},
                    }
                }
            },
            Err(e) => {
                assert(records_spec(recs.skip(i as int), ix, table.failed) == Err::<Seq<DeviceView>, DdbError>(e));
                return Err(e);
            },
        }
        i = i + 1;
    }
    assert(recs.skip(i as int).len() == 0);
    if table.failed {
        return Err(DdbError::Csv);
    }
    assert(devices_view(out@) + Seq::<DeviceView>::empty() =~= devices_view(out@));
    Ok(out)
}

/// Reads the devices of a database text.
pub fn read_database(input: &[u8]) -> (r: Result<Vec<Device>, DdbError>)
    ensures
        match (r, database_spec(input@)) {
            (Ok(ds), Ok(vs)) => devices_view(ds@) == vs,
            (Err(a), Err(b)) => a == b,
            _ => false,
        },
{
    match read_csv_table(input) {
        Some(t) => devices_of_table(&t),
        None => Err(DdbError::Csv),
    }
}

/// The devices by identifier; of devices with one identifier, the last one.
pub open spec fn index_spec(ds: Seq<Device>) -> Map<u32, Device>
    decreases ds.len(),
{
    if ds.len() == 0 {
        Map::empty()
    } else {
        index_spec(ds.drop_last()).insert(ds.last().id, ds.last())
    }
}

proof fn lemma_index_prepend(d: Device, s: Seq<Device>)
    ensures
        index_spec(seq![d] + s) == if index_spec(s).contains_key(d.id) {
            index_spec(s)
        } else {
            index_spec(s).insert(d.id, d)
        },
    decreases s.len(),
{
    if s.len() == 0 {
        assert(seq![d] + s =~= seq![d]);
        assert(seq![d].drop_last() =~= Seq::<Device>::empty());
        assert(index_spec(Seq::<Device>::empty()) == Map::<u32, Device>::empty());
        assert(index_spec(seq![d]) == index_spec(Seq::<Device>::empty()).insert(d.id, d));
        assert(index_spec(seq![d] + s) =~= index_spec(s).insert(d.id, d));
    } else {
        lemma_index_prepend(d, s.drop_last());
        assert((seq![d] + s).drop_last() =~= seq![d] + s.drop_last());
        assert((seq![d] + s).last() == s.last());
        assert(index_spec(seq![d] + s) == index_spec(seq![d] + s.drop_last()).insert(
            s.last().id,
            s.last(),
        ));
        assert(index_spec(s) == index_spec(s.drop_last()).insert(s.last().id, s.last()));
        let m = index_spec(s.drop_last());
        let x = s.last();
        if !index_spec(s).contains_key(d.id) {
            assert(!m.contains_key(d.id));
            assert(x.id != d.id);
            assert(index_spec(seq![d] + s.drop_last()) == m.insert(d.id, d));
            assert(m.insert(d.id, d).insert(x.id, x) =~= m.insert(x.id, x).insert(d.id, d));
        } else if m.contains_key(d.id) {
            assert(index_spec(seq![d] + s.drop_last()) == m);
        } else {
            assert(x.id == d.id);
            assert(m.insert(d.id, d).insert(x.id, x) =~= m.insert(x.id, x));
        }
        if index_spec(s).contains_key(d.id) {
            assert(index_spec(seq![d] + s) =~= index_spec(s));
        } else {
            assert(index_spec(seq![d] + s) =~= index_spec(s).insert(d.id, d));
        }
    }
}

/// The index holds exactly the devices' identifiers, each with the last device that has it.
pub proof fn index_holds_last_device(ds: Seq<Device>, id: u32)
    ensures
        index_spec(ds).contains_key(id) <==> exists|i: int| 0 <= i < ds.len() && #[trigger] ds[i].id == id,
        forall|i: int|
            0 <= i < ds.len() && #[trigger] ds[i].id == id && (forall|j: int| i < j < ds.len() ==> ds[j].id != id)
                ==> index_spec(ds)[id] == ds[i],
    decreases ds.len(),
{
    if ds.len() > 0 {
        let p = ds.drop_last();
        let n = ds.len() - 1;
        index_holds_last_device(p, id);
        if ds.last().id == id {
            assert(ds[n].id == id);
            assert forall|i: int|
                0 <= i < ds.len() && #[trigger] ds[i].id == id && (forall|j: int| i < j < ds.len() ==> ds[j].id != id)
                    implies index_spec(ds)[id] == ds[i] by {
                if i < n {
                    assert(ds[n].id == id);
                }
            }
        } else {
            assert forall|i: int| 0 <= i < ds.len() && #[trigger] ds[i].id == id implies 0 <= i < p.len()
                && p[i].id == id by {
                assert(i != n);
            }
            assert forall|i: int| 0 <= i < p.len() && #[trigger] p[i].id == id implies ds[i].id == id by {}
            assert forall|i: int|
                0 <= i < ds.len() && #[trigger] ds[i].id == id && (forall|j: int| i < j < ds.len() ==> ds[j].id != id)
                    implies index_spec(ds)[id] == ds[i] by {
                assert(i < n);
                assert(p[i] == ds[i]);
                assert forall|j: int| i < j < p.len() implies p[j].id != id by {
                    assert(p[j] == ds[j]);
                }
            }
        }
    }
}

pub fn index_by_id(devices: Vec<Device>) -> (r: HashMap<u32, Device>)
    ensures
        r@ == index_spec(devices@),
{
    let ghost all = devices@;
    let mut rest = devices;
    let mut m: HashMap<u32, Device> = HashMap::new();
    assert(all.skip(all.len() as int) =~= Seq::<Device>::empty());
    while rest.len() > 0
        invariant
            rest@.len() <= all.len(),
            rest@ =~= all.take(rest@.len() as int),
            m@ == index_spec(all.skip(rest@.len() as int)),
        decreases rest@.len(),
    {
        let ghost k = rest@.len() as int;
        let d = rest.pop().unwrap();
        proof {
            assert(all.skip(k - 1) =~= seq![d] + all.skip(k));
            lemma_index_prepend(d, all.skip(k));
        }
        if !m.contains_key(&d.id) {
            m.insert(d.id, d);
        }
    }
    assert(all.skip(0) =~= all);
    m
}

} // verus!
