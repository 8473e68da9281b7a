//! Picking the GGA fix sentences out of what the GPS module sends, and
//! turning their fields into log readings.
//!
//! Text is handled here as byte strings: a read is split at line breaks, and
//! each line at commas, into at most fifteen pieces, and the parts of a fix
//! go into the fixed cells of the log queue.

use vstd::prelude::*;
use crate::rows::Reading;
use crate::rows::BUFFER_LENGTH;
use crate::rows::TIME_COLUMN;

verus! {

/// Bytes read from the GPS module at a time.
pub const GPS_BUF_SIZE: usize = 256;

/// Pieces kept when text is split: the lines of a read, the fields of a line.
pub const SPLIT_SLOTS: usize = 15;

/// Ends a sentence.
pub const LINE_BREAK: u8 = 0x0a;

/// Separates the fields of a sentence.
pub const FIELD_SEPARATOR: u8 = 0x2c;

/// Separates hours, minutes and seconds in the time cell of a fix.
pub const TIME_SEPARATOR: u8 = 0x3a;

/// Field of a GGA sentence holding the UTC time, `hhmmss.ss`.
pub const UTC_FIELD: usize = 1;

/// Field of a GGA sentence holding the latitude, `ddmm.mmmm`.
pub const LATITUDE_FIELD: usize = 2;

/// Field of a GGA sentence holding the latitude's hemisphere, `N` or `S`.
pub const HEMISPHERE_FIELD: usize = 3;

/// Field of a GGA sentence holding the longitude, `dddmm.mmmm`.
pub const LONGITUDE_FIELD: usize = 4;

/// Field of a GGA sentence holding the longitude's hemisphere, `E` or `W`.
pub const LONGITUDE_HEMISPHERE_FIELD: usize = 5;

/// Field of a GGA sentence holding the altitude.
pub const ALTITUDE_FIELD: usize = 9;

/// Field of a GGA sentence holding the unit of the altitude.
pub const ALTITUDE_UNITS_FIELD: usize = 10;

/// The last field of a GGA sentence, which holds its checksum.
pub const CHECKSUM_FIELD: usize = 14;

/// Column of the log for the latitude.
pub const LATITUDE_COLUMN: u8 = 4;

/// Column of the log for the longitude.
pub const LONGITUDE_COLUMN: u8 = 5;

/// Column of the log for the altitude.
pub const ALTITUDE_COLUMN: u8 = 6;

/// Column of the log for the unit of the altitude.
pub const ALTITUDE_UNITS_COLUMN: u8 = 7;

/// The pieces of `s` between occurrences of `sep`, in order: one more piece
/// than there are separators, each possibly empty.
pub open spec fn split_pieces(s: Seq<u8>, sep: u8) -> Seq<Seq<u8>>
    decreases s.len(),
{
    if s.len() == 0 {
        seq![Seq::<u8>::empty()]
    } else {
        let p = split_pieces(s.drop_last(), sep);
        if s.last() == sep {
            p.push(Seq::<u8>::empty())
        } else {
            p.update(p.len() - 1, p.last().push(s.last()))
        }
    }
}

/// The first `SPLIT_SLOTS` pieces of `s` between occurrences of `sep`; slots
/// beyond the last piece are empty.
pub open spec fn split_slots(s: Seq<u8>, sep: u8) -> Seq<Seq<u8>> {
    let pieces = split_pieces(s, sep);
    Seq::new(
        SPLIT_SLOTS as nat,
        |i: int|
            if i < pieces.len() {
                pieces[i]
            } else {
                Seq::<u8>::empty()
            },
    )
}

/// `pieces` joined back together with `sep` between each two.
pub open spec fn join_pieces(pieces: Seq<Seq<u8>>, sep: u8) -> Seq<u8>
    decreases pieces.len(),
{
    if pieces.len() == 0 {
        seq![]
    } else if pieces.len() == 1 {
        pieces[0]
    } else {
        join_pieces(pieces.drop_last(), sep) + seq![sep] + pieces.last()
    }
}

proof fn lemma_join_extend_last(pieces: Seq<Seq<u8>>, sep: u8, c: u8)
    requires
        pieces.len() >= 1,
    ensures
        join_pieces(pieces.update(pieces.len() - 1, pieces.last().push(c)), sep) == join_pieces(
            pieces,
            sep,
        ).push(c),
{
    let q = pieces.update(pieces.len() - 1, pieces.last().push(c));
    if pieces.len() > 1 {
        assert(q.drop_last() =~= pieces.drop_last());
        assert(join_pieces(q, sep) =~= join_pieces(pieces, sep).push(c));
    }
}

/// Splitting loses nothing: joining the pieces of a text back together with
/// the separator gives back the text.
pub proof fn lemma_split_join(s: Seq<u8>, sep: u8)
    ensures
        join_pieces(split_pieces(s, sep), sep) == s,
    decreases s.len(),
{
    if s.len() > 0 {
        let t = s.drop_last();
        lemma_split_join(t, sep);
        lemma_split_pieces_nonempty(t, sep);
        let p = split_pieces(t, sep);
        if s.last() == sep {
            assert(p.push(Seq::<u8>::empty()).drop_last() =~= p);
            assert(join_pieces(p.push(Seq::<u8>::empty()), sep) =~= s);
        } else {
            lemma_join_extend_last(p, sep, s.last());
            assert(t.push(s.last()) =~= s);
        }
    } else {
        assert(split_pieces(s, sep) =~= seq![Seq::<u8>::empty()]);
        assert(s =~= Seq::<u8>::empty());
    }
}

/// The texts held by a list of texts.
pub open spec fn texts_view(v: Seq<Vec<u8>>) -> Seq<Seq<u8>> {
    v.map_values(|t: Vec<u8>| t@)
}

proof fn lemma_split_pieces_nonempty(s: Seq<u8>, sep: u8)
    ensures
        split_pieces(s, sep).len() >= 1,
    decreases s.len(),
{
    if s.len() > 0 {
        lemma_split_pieces_nonempty(s.drop_last(), sep);
    }
}

/// Splits `data` at every `sep`, keeping the first `SPLIT_SLOTS` pieces.
pub fn split(data: &Vec<u8>, sep: u8) -> (r: Vec<Vec<u8>>)
    ensures
        texts_view(r@) == split_slots(data@, sep),
{
    let mut pieces: Vec<Vec<u8>> = Vec::new();
    let mut cur: Vec<u8> = Vec::new();
    let mut i: usize = 0;
    proof {
        assert(data@.take(0) =~= Seq::<u8>::empty());
        assert(texts_view(pieces@).push(cur@) =~= split_pieces(data@.take(0), sep));
    }
    while i < data.len()
        invariant
            i <= data@.len(),
            texts_view(pieces@).push(cur@) == split_pieces(data@.take(i as int), sep),
        decreases data@.len() - i,
    {
        let ghost before = texts_view(pieces@);
        assert(data@.take(i + 1).drop_last() =~= data@.take(i as int));
        assert(data@.take(i + 1).last() == data@[i as int]);
        if data[i] == sep {
            pieces.push(cur);
            cur = Vec::new();
            assert(texts_view(pieces@) =~= before.push(split_pieces(data@.take(i as int), sep).last()));
        } else {
            cur.push(data[i]);
        }
        assert(texts_view(pieces@).push(cur@) =~= split_pieces(data@.take(i + 1), sep));
        i = i + 1;
    }
    assert(data@.take(data@.len() as int) =~= data@);
    pieces.push(cur);
    let ghost all = split_pieces(data@, sep);
    assert(texts_view(pieces@) =~= all);
    if pieces.len() > SPLIT_SLOTS {
        pieces.truncate(SPLIT_SLOTS);
    }
    while pieces.len() < SPLIT_SLOTS
        invariant
            pieces@.len() <= SPLIT_SLOTS,
            pieces@.len() < SPLIT_SLOTS ==> pieces@.len() >= all.len(),
            forall|k: int|
                0 <= k < pieces@.len() ==> #[trigger] pieces@[k]@ == if k < all.len() {
                    all[k]
                } else {
                    Seq::<u8>::empty()
                },
        decreases SPLIT_SLOTS - pieces@.len(),
    {
        pieces.push(Vec::new());
    }
    assert(texts_view(pieces@) =~= split_slots(data@, sep));
    pieces
}

/// The identifier that opens a GGA sentence: `$GPGGA`.
pub open spec fn gpgga_identifier() -> Seq<u8> {
    seq![0x24u8, 0x47u8, 0x50u8, 0x47u8, 0x47u8, 0x41u8]
}

/// Whether split fields are those of a complete GGA sentence: the first
/// field is the identifier and the checksum field is not empty.
pub open spec fn is_gpgga_fields(fields: Seq<Seq<u8>>) -> bool {
    &&& fields.len() == SPLIT_SLOTS
    &&& fields[0] == gpgga_identifier()
    &&& fields[CHECKSUM_FIELD as int].len() > 0
}

/// Whether `text` holds exactly the bytes of `expected`.
fn text_equals(text: &Vec<u8>, expected: &[u8]) -> (r: bool)
    ensures
        r == (text@ == expected@),
{
    if text.len() != expected.len() {
        return false;
    }
    let mut i: usize = 0;
    while i < text.len()
        invariant
            text@.len() == expected@.len(),
            i <= text@.len(),
            forall|j: int| 0 <= j < i ==> text@[j] == expected@[j],
        decreases text@.len() - i,
    {
        if text[i] != expected[i] {
            return false;
        }
        i = i + 1;
    }
    assert(text@ =~= expected@);
    true
}

/// Whether split fields are those of a complete GGA sentence.
pub fn is_gpgga(fields: &Vec<Vec<u8>>) -> (r: bool)
    ensures
        r == is_gpgga_fields(texts_view(fields@)),
{
    if fields.len() != SPLIT_SLOTS {
        return false;
    }
    let identifier: [u8; 6] = [0x24, 0x47, 0x50, 0x47, 0x47, 0x41];
    assert(identifier@ =~= gpgga_identifier());
    let is_identifier = text_equals(&fields[0], identifier.as_slice());
    is_identifier && fields[CHECKSUM_FIELD].len() > 0
}

/// The fields of every line of a read, each line split into fields.
pub open spec fn line_fields(buffer: Seq<u8>) -> Seq<Seq<Seq<u8>>> {
    split_slots(buffer, LINE_BREAK).map_values(|line: Seq<u8>| split_slots(line, FIELD_SEPARATOR))
}

/// The fields of the complete GGA sentences among the first `SPLIT_SLOTS`
/// lines of a read, in order.
pub open spec fn spec_gpgga_sentences(buffer: Seq<u8>) -> Seq<Seq<Seq<u8>>> {
    line_fields(buffer).filter(|fields: Seq<Seq<u8>>| is_gpgga_fields(fields))
}

/// What a list of split sentences holds.
pub open spec fn sentences_view(v: Seq<Vec<Vec<u8>>>) -> Seq<Seq<Seq<u8>>> {
    v.map_values(|fields: Vec<Vec<u8>>| texts_view(fields@))
}

/// The fields of the complete GGA sentences in a read from the GPS module.
pub fn gpgga_sentences(buffer: &Vec<u8>) -> (r: Vec<Vec<Vec<u8>>>)
    ensures
        sentences_view(r@) == spec_gpgga_sentences(buffer@),
        forall|i: int|
            0 <= i < SPLIT_SLOTS && is_gpgga_fields(
                #[trigger] split_slots(split_slots(buffer@, LINE_BREAK)[i], FIELD_SEPARATOR),
            ) ==> sentences_view(r@).contains(
                split_slots(split_slots(buffer@, LINE_BREAK)[i], FIELD_SEPARATOR),
            ),
        forall|k: int|
            0 <= k < r@.len() ==> is_gpgga_fields(#[trigger] sentences_view(r@)[k]),
{
    let chunks = split(buffer, LINE_BREAK);
    let ghost all = line_fields(buffer@);
    let mut out: Vec<Vec<Vec<u8>>> = Vec::new();
    let mut i: usize = 0;
    proof {
        reveal(Seq::filter);
        assert(all.take(0) =~= Seq::<Seq<Seq<u8>>>::empty());
        assert(sentences_view(out@) =~= Seq::<Seq<Seq<u8>>>::empty());
    }
    while i < chunks.len()
        invariant
            i <= chunks@.len(),
            chunks@.len() == SPLIT_SLOTS,
            all == line_fields(buffer@),
            texts_view(chunks@) == split_slots(buffer@, LINE_BREAK),
            sentences_view(out@) == all.take(i as int).filter(
                |fields: Seq<Seq<u8>>| is_gpgga_fields(fields),
            ),
        decreases chunks@.len() - i,
    {
        let fields = split(&chunks[i], FIELD_SEPARATOR);
        proof {
            reveal(Seq::filter);
            assert(all.take(i + 1).drop_last() =~= all.take(i as int));
            assert(chunks@[i as int]@ == texts_view(chunks@)[i as int]);
            assert(all.take(i + 1).last() == texts_view(fields@));
        }
        let ghost before = sentences_view(out@);
        if is_gpgga(&fields) {
            out.push(fields);
            assert(sentences_view(out@) =~= before.push(texts_view(out@.last()@)));
        }
        i = i + 1;
    }
    assert(all.take(SPLIT_SLOTS as int) =~= all);
    proof {
        assert forall|i: int|
            0 <= i < SPLIT_SLOTS && is_gpgga_fields(
                #[trigger] split_slots(split_slots(buffer@, LINE_BREAK)[i], FIELD_SEPARATOR),
            ) implies sentences_view(out@).contains(
            split_slots(split_slots(buffer@, LINE_BREAK)[i], FIELD_SEPARATOR),
        ) by {
            lemma_gpgga_sentences_complete(buffer@, i);
        }
        assert forall|k: int| 0 <= k < out@.len() implies is_gpgga_fields(
            #[trigger] sentences_view(out@)[k],
        ) by {
            lemma_gpgga_sentences_sound(buffer@, k);
        }
    }
    out
}

/// No complete GGA sentence among the first `SPLIT_SLOTS` lines of a read is
/// left out, the first line included: the fields of every such line are
/// among the sentences picked out.
pub proof fn lemma_gpgga_sentences_complete(buffer: Seq<u8>, i: int)
    requires
        0 <= i < SPLIT_SLOTS,
        is_gpgga_fields(split_slots(split_slots(buffer, LINE_BREAK)[i], FIELD_SEPARATOR)),
    ensures
        spec_gpgga_sentences(buffer).contains(
            split_slots(split_slots(buffer, LINE_BREAK)[i], FIELD_SEPARATOR),
        ),
{
    let all = line_fields(buffer);
    assert(all[i] == split_slots(split_slots(buffer, LINE_BREAK)[i], FIELD_SEPARATOR));
    all.lemma_filter_contains(|fields: Seq<Seq<u8>>| is_gpgga_fields(fields), i);
}

/// Every sentence picked out of a read is a complete GGA sentence, split
/// into fields from one of the first `SPLIT_SLOTS` lines of the read.
pub proof fn lemma_gpgga_sentences_sound(buffer: Seq<u8>, k: int)
    requires
        0 <= k < spec_gpgga_sentences(buffer).len(),
    ensures
        is_gpgga_fields(spec_gpgga_sentences(buffer)[k]),
        exists|i: int|
            0 <= i < SPLIT_SLOTS && spec_gpgga_sentences(buffer)[k] == split_slots(
                split_slots(buffer, LINE_BREAK)[i],
                FIELD_SEPARATOR,
            ),
{
    let all = line_fields(buffer);
    let pred = |fields: Seq<Seq<u8>>| is_gpgga_fields(fields);
    let x = spec_gpgga_sentences(buffer)[k];
    all.lemma_filter_pred(pred, k);
    assert(spec_gpgga_sentences(buffer).contains(x));
    all.lemma_filter_contains_rev(pred, x);
    let i = choose|i: int| 0 <= i < all.len() && all[i] == x;
    assert(x == split_slots(split_slots(buffer, LINE_BREAK)[i], FIELD_SEPARATOR));
}


/// The cell of a text: the text padded with zero bytes to `BUFFER_LENGTH`,
/// or nothing when the text is longer than that.
pub open spec fn spec_cell(text: Seq<u8>) -> Option<Seq<u8>> {
    if text.len() <= BUFFER_LENGTH {
        Some(text + Seq::new((BUFFER_LENGTH - text.len()) as nat, |i: int| 0u8))
    } else {
        None
    }
}

/// The cell of a text, or `None` when the text does not fit in a cell.
pub fn text_cell(text: &Vec<u8>) -> (r: Option<[u8; BUFFER_LENGTH]>)
    ensures
        r is Some <==> spec_cell(text@) is Some,
        r matches Some(cell) ==> spec_cell(text@) == Some(cell@),
{
    if text.len() > BUFFER_LENGTH {
        return None;
    }
    let mut cell: [u8; BUFFER_LENGTH] = [0u8; BUFFER_LENGTH];
    let mut i: usize = 0;
    while i < text.len()
        invariant
            text@.len() <= BUFFER_LENGTH,
            i <= text@.len(),
            forall|j: int|
                0 <= j < BUFFER_LENGTH ==> #[trigger] cell@[j] == if j < i {
                    text@[j]
                } else {
                    0u8
                },
        decreases text@.len() - i,
    {
        cell[i] = text[i];
        i = i + 1;
    }
    assert(cell@ =~= text@ + Seq::new((BUFFER_LENGTH - text@.len()) as nat, |i: int| 0u8));
    Some(cell)
}

/// The time cell of a fix: the first six bytes of the UTC field, `hhmmss`,
/// written as `hh:mm:ss`.
pub open spec fn spec_utc_cell(field: Seq<u8>) -> Seq<u8> {
    seq![field[0], field[1], TIME_SEPARATOR, field[2], field[3], TIME_SEPARATOR, field[4], field[5]]
}

/// The time cell of a fix from its UTC field.
pub fn utc_time_cell(field: &Vec<u8>) -> (r: [u8; BUFFER_LENGTH])
    requires
        field@.len() >= 6,
    ensures
        r@ == spec_utc_cell(field@),
        r@[0] == field@[0],
        r@[1] == field@[1],
        r@[2] == TIME_SEPARATOR,
        r@[3] == field@[2],
        r@[4] == field@[3],
        r@[5] == TIME_SEPARATOR,
        r@[6] == field@[4],
        r@[7] == field@[5],
{
    let r: [u8; BUFFER_LENGTH] = [
        field[0],
        field[1],
        TIME_SEPARATOR,
        field[2],
        field[3],
        TIME_SEPARATOR,
        field[4],
        field[5],
    ];
    assert(r@ =~= spec_utc_cell(field@));
    proof {
        lemma_utc_cell_reads_field(field@);
    }
    r
}

/// The time cell of a fix reads the hours, minutes and seconds of the UTC
/// field in their order, `hh:mm:ss`.
pub proof fn lemma_utc_cell_reads_field(field: Seq<u8>)
    requires
        field.len() >= 6,
    ensures
        spec_utc_cell(field).len() == BUFFER_LENGTH,
        spec_utc_cell(field)[0] == field[0],
        spec_utc_cell(field)[1] == field[1],
        spec_utc_cell(field)[2] == TIME_SEPARATOR,
        spec_utc_cell(field)[3] == field[2],
        spec_utc_cell(field)[4] == field[3],
        spec_utc_cell(field)[5] == TIME_SEPARATOR,
        spec_utc_cell(field)[6] == field[4],
        spec_utc_cell(field)[7] == field[5],
{
}

/// The hemisphere marker `S`.
pub open spec fn south_marker() -> Seq<u8> {
    seq![0x53u8]
}

/// The hemisphere marker `W`.
pub open spec fn west_marker() -> Seq<u8> {
    seq![0x57u8]
}

/// Whether the latitude of a GGA sentence is to be negated: its hemisphere
/// field reads `S`.
pub fn latitude_negated(gpgga: &Vec<Vec<u8>>) -> (r: bool)
    requires
        gpgga@.len() == SPLIT_SLOTS,
    ensures
        r == (gpgga@[HEMISPHERE_FIELD as int]@ == south_marker()),
{
    let south: [u8; 1] = [0x53];
    assert(south@ =~= south_marker());
    text_equals(&gpgga[HEMISPHERE_FIELD], south.as_slice())
}

/// Whether the longitude of a GGA sentence is to be negated: its hemisphere
/// field reads `W`.
pub fn longitude_negated(gpgga: &Vec<Vec<u8>>) -> (r: bool)
    requires
        gpgga@.len() == SPLIT_SLOTS,
    ensures
        r == (gpgga@[LONGITUDE_HEMISPHERE_FIELD as int]@ == west_marker()),
{
    let west: [u8; 1] = [0x57];
    assert(west@ =~= west_marker());
    text_equals(&gpgga[LONGITUDE_HEMISPHERE_FIELD], west.as_slice())
}

/// A copy of a text.
fn copy_text(text: &Vec<u8>) -> (r: Vec<u8>)
    ensures
        r@ == text@,
{
    let mut r: Vec<u8> = Vec::new();
    let mut i: usize = 0;
    while i < text.len()
        invariant
            i <= text@.len(),
            r@ == text@.take(i as int),
        decreases text@.len() - i,
    {
        r.push(text[i]);
        assert(text@.take(i + 1) =~= text@.take(i as int).push(text@[i as int]));
        i = i + 1;
    }
    assert(text@.take(text@.len() as int) =~= text@);
    r
}

/// A position fix: the time and coordinates in cells, the altitude and its
/// unit as the sentence gives them.
pub struct Gps {
    /// Latitude in decimal degrees.
    pub deg_lat: [u8; BUFFER_LENGTH],
    /// Longitude in decimal degrees.
    pub deg_long: [u8; BUFFER_LENGTH],
    /// UTC time of the fix, `hh:mm:ss`.
    pub date_time: [u8; BUFFER_LENGTH],
    /// Altitude, the field of the sentence.
    pub altitude: Vec<u8>,
    /// Unit of the altitude, the field of the sentence.
    pub altitude_units: Vec<u8>,
}

/// Builds a fix from the fields of a GGA sentence and the latitude and
/// longitude already converted to decimal degrees. There is no fix when a
/// coordinate could not be converted; the altitude and its unit are copied
/// from their fields.
pub fn parse_gpgga(gpgga: &Vec<Vec<u8>>, deg_lat: Option<[u8; BUFFER_LENGTH]>, deg_long: Option<
    [u8; BUFFER_LENGTH],
>) -> (r: Option<Gps>)
    requires
        gpgga@.len() == SPLIT_SLOTS,
        gpgga@[UTC_FIELD as int]@.len() >= 6,
    ensures
        r is Some <==> deg_lat is Some && deg_long is Some,
        r matches Some(g) ==> {
            &&& g.date_time@ == spec_utc_cell(gpgga@[UTC_FIELD as int]@)
            &&& g.date_time@[0] == gpgga@[UTC_FIELD as int]@[0]
            &&& g.date_time@[1] == gpgga@[UTC_FIELD as int]@[1]
            &&& g.date_time@[2] == TIME_SEPARATOR
            &&& g.date_time@[3] == gpgga@[UTC_FIELD as int]@[2]
            &&& g.date_time@[4] == gpgga@[UTC_FIELD as int]@[3]
            &&& g.date_time@[5] == TIME_SEPARATOR
            &&& g.date_time@[6] == gpgga@[UTC_FIELD as int]@[4]
            &&& g.date_time@[7] == gpgga@[UTC_FIELD as int]@[5]
            &&& deg_lat == Some(g.deg_lat)
            &&& deg_long == Some(g.deg_long)
            &&& g.altitude@ == gpgga@[ALTITUDE_FIELD as int]@
            &&& g.altitude_units@ == gpgga@[ALTITUDE_UNITS_FIELD as int]@
        },
{
    let utc_time = utc_time_cell(&gpgga[UTC_FIELD]);
    let latitude = match deg_lat {
        Some(cell) => cell,
        None => return None,
    };
    let longitude = match deg_long {
        Some(cell) => cell,
        None => return None,
    };
    let altitude = copy_text(&gpgga[ALTITUDE_FIELD]);
    let altitude_units = copy_text(&gpgga[ALTITUDE_UNITS_FIELD]);
    Some(Gps { deg_lat: latitude, deg_long: longitude, date_time: utc_time, altitude, altitude_units })
}

/// The readings a fix is logged as, in the order they are queued: the time,
/// the latitude, the longitude, the altitude and its unit, each in its
/// column. The queue holds fixed cells, so the fix is logged only when the
/// altitude and its unit each fit in a cell.
pub open spec fn spec_gps_readings(g: Gps) -> Option<Seq<(u8, Seq<u8>)>> {
    match (spec_cell(g.altitude@), spec_cell(g.altitude_units@)) {
        (Some(altitude), Some(units)) => Some(
            seq![
                (TIME_COLUMN, g.date_time@),
                (LATITUDE_COLUMN, g.deg_lat@),
                (LONGITUDE_COLUMN, g.deg_long@),
                (ALTITUDE_COLUMN, altitude),
                (ALTITUDE_UNITS_COLUMN, units),
            ],
        ),
        _ => None,
    }
}

/// The readings of a list, each cell taken as its bytes.
pub open spec fn readings_view(v: Seq<Reading>) -> Seq<(u8, Seq<u8>)> {
    v.map_values(|e: Reading| (e.0, e.1@))
}

/// The readings a fix is logged as; `None` when the altitude or its unit
/// does not fit in a cell.
pub fn gps_readings(gps_info: &Gps) -> (r: Option<Vec<Reading>>)
    ensures
        r is Some <==> spec_gps_readings(*gps_info) is Some,
        r matches Some(v) ==> spec_gps_readings(*gps_info) == Some(readings_view(v@)),
{
    let altitude = match text_cell(&gps_info.altitude) {
        Some(cell) => cell,
        None => return None,
    };
    let altitude_units = match text_cell(&gps_info.altitude_units) {
        Some(cell) => cell,
        None => return None,
    };
    let mut r: Vec<Reading> = Vec::new();
    r.push((TIME_COLUMN, gps_info.date_time));
    r.push((LATITUDE_COLUMN, gps_info.deg_lat));
    r.push((LONGITUDE_COLUMN, gps_info.deg_long));
    r.push((ALTITUDE_COLUMN, altitude));
    r.push((ALTITUDE_UNITS_COLUMN, altitude_units));
    assert(spec_gps_readings(*gps_info) == Some(readings_view(r@))) by {
        assert(readings_view(r@) =~= seq![
            (TIME_COLUMN, gps_info.date_time@),
            (LATITUDE_COLUMN, gps_info.deg_lat@),
            (LONGITUDE_COLUMN, gps_info.deg_long@),
            (ALTITUDE_COLUMN, altitude@),
            (ALTITUDE_UNITS_COLUMN, altitude_units@),
        ]);
    }
    Some(r)
}

} // verus!
