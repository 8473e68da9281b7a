//! Building the rows of the CSV log from the readings the sensor tasks queue
//! up: each reading names the column it belongs to and carries its text in a
//! fixed-size cell.

use vstd::prelude::*;

verus! {

broadcast use vstd::seq_lib::group_to_multiset_ensures, vstd::multiset::group_multiset_axioms;

/// Bytes in the text cell of a reading.
pub const BUFFER_LENGTH: usize = 8;

/// Readings gathered into one row.
pub const Q_SIZE: usize = 20;

/// Bytes in a row as it is written to the card.
pub const LINE_LENGTH: usize = 150;

/// The column that the time of day goes into.
pub const TIME_COLUMN: u8 = 0;

/// The column that the roll of the boat goes into.
pub const ROLL_COLUMN: u8 = 1;

/// The column that the pitch of the boat goes into.
pub const PITCH_COLUMN: u8 = 2;

/// The column that the compass heading goes into.
pub const HEADING_COLUMN: u8 = 3;

/// The column given to unused slots; their cells are blank, so they add
/// nothing to a row.
pub const UNUSED_COLUMN: u8 = 21;

/// Separates the columns of a row.
pub const SEPARATOR: u8 = 0x2c;

/// Ends a row.
pub const NEWLINE: u8 = 0x0a;

/// The zero byte that pads a cell: it is left out of the row.
pub const SKIPPED_BYTE: u8 = 0x00;

/// A reading: its column and its text cell.
pub type Reading = (u8, [u8; BUFFER_LENGTH]);

/// The names of the columns in the header of the log, each five bytes:
/// "Time ", "Roll ", "Pitch".
pub open spec fn header_names() -> Seq<Seq<u8>> {
    seq![
        seq![0x54u8, 0x69u8, 0x6du8, 0x65u8, 0x20u8],
        seq![0x52u8, 0x6fu8, 0x6cu8, 0x6cu8, 0x20u8],
        seq![0x50u8, 0x69u8, 0x74u8, 0x63u8, 0x68u8],
    ]
}

/// Each of `names` followed by a separator, in order.
pub open spec fn names_with_separators(names: Seq<Seq<u8>>) -> Seq<u8>
    decreases names.len(),
{
    if names.len() == 0 {
        seq![]
    } else {
        names_with_separators(names.drop_last()) + names.last() + seq![SEPARATOR]
    }
}

/// The first line of the log: every column name followed by a separator,
/// then a newline.
pub open spec fn spec_csv_header() -> Seq<u8> {
    names_with_separators(header_names()) + seq![NEWLINE]
}

/// The first line of the log.
pub fn csv_header() -> (r: Vec<u8>)
    ensures
        r@ == spec_csv_header(),
{
    let names: [[u8; 5]; 3] = [
        [0x54, 0x69, 0x6d, 0x65, 0x20],
        [0x52, 0x6f, 0x6c, 0x6c, 0x20],
        [0x50, 0x69, 0x74, 0x63, 0x68],
    ];
    let ghost spec_names = header_names();
    assert(names@.len() == 3);
    assert(forall|i: int| 0 <= i < 3 ==> #[trigger] names@[i]@ == spec_names[i]);
    let mut out: Vec<u8> = Vec::new();
    let mut n: usize = 0;
    while n < 3
        invariant
            n <= 3,
            names@.len() == 3,
            spec_names == header_names(),
            forall|i: int| 0 <= i < 3 ==> #[trigger] names@[i]@ == spec_names[i],
            out@ == names_with_separators(spec_names.take(n as int)),
        decreases 3 - n,
    {
        let name = names[n];
        let mut b: usize = 0;
        let ghost before = out@;
        while b < 5
            invariant
                b <= 5,
                n < 3,
                name@ == spec_names[n as int],
                spec_names[n as int].len() == 5,
                out@ == before + name@.take(b as int),
            decreases 5 - b,
        {
            out.push(name[b]);
            assert(name@.take(b + 1) =~= name@.take(b as int).push(name@[b as int]));
            b = b + 1;
        }
        out.push(SEPARATOR);
        assert(spec_names.take(n + 1).drop_last() =~= spec_names.take(n as int));
        assert(name@.take(5) =~= name@);
        n = n + 1;
    }
    out.push(NEWLINE);
    assert(spec_names.take(3) =~= spec_names);
    out
}

/// A cell of zero bytes.
pub open spec fn blank_cell() -> Seq<u8> {
    Seq::new(BUFFER_LENGTH as nat, |i: int| 0u8)
}

/// The slots a row is gathered in: the readings received, in order, then
/// unused slots with blank cells, `Q_SIZE` in all; the last slot is then
/// given the time of day, in the time column, in place of what it held.
pub open spec fn spec_slots(received: Seq<Reading>, time: [u8; BUFFER_LENGTH]) -> Seq<Reading> {
    Seq::new(
        Q_SIZE as nat,
        |i: int|
            if i == Q_SIZE - 1 {
                (TIME_COLUMN, time)
            } else if i < received.len() {
                received[i]
            } else {
                (UNUSED_COLUMN, [0u8; BUFFER_LENGTH])
            },
    )
}

/// Puts the received readings and the time of day into the slots of a row.
pub fn fill_slots(received: &Vec<Reading>, time: [u8; BUFFER_LENGTH]) -> (r: Vec<Reading>)
    requires
        received@.len() <= Q_SIZE,
    ensures
        r@ == spec_slots(received@, time),
        r@.len() == Q_SIZE,
        forall|i: int|
            0 <= i < received@.len() && i < Q_SIZE - 1 ==> #[trigger] r@[i] == received@[i],
        r@[Q_SIZE - 1] == (TIME_COLUMN, time),
{
    let mut slots: Vec<Reading> = Vec::new();
    let mut i: usize = 0;
    while i < Q_SIZE
        invariant
            i <= Q_SIZE,
            slots@.len() == i,
            forall|j: int| 0 <= j < i ==> #[trigger] slots@[j] == (UNUSED_COLUMN, [0u8; BUFFER_LENGTH]),
        decreases Q_SIZE - i,
    {
        slots.push((UNUSED_COLUMN, [0u8; BUFFER_LENGTH]));
        i = i + 1;
    }
    let mut i: usize = 0;
    while i < received.len()
        invariant
            received@.len() <= Q_SIZE,
            i <= received@.len(),
            slots@.len() == Q_SIZE,
            forall|j: int|
                0 <= j < Q_SIZE ==> #[trigger] slots@[j] == if j < i {
                    received@[j]
                } else {
                    (UNUSED_COLUMN, [0u8; BUFFER_LENGTH])
                },
        decreases received@.len() - i,
    {
        slots.set(i, received[i]);
        i = i + 1;
    }
    slots.set(Q_SIZE - 1, (TIME_COLUMN, time));
    assert(slots@ =~= spec_slots(received@, time));
    proof {
        lemma_slots_keep_received(received@, time);
    }
    slots
}

/// Every reading received before the last slot keeps the slot it was
/// received in, whatever its column; the last slot holds the time of day in
/// the time column.
pub proof fn lemma_slots_keep_received(received: Seq<Reading>, time: [u8; BUFFER_LENGTH])
    ensures
        spec_slots(received, time).len() == Q_SIZE,
        forall|i: int|
            0 <= i < received.len() && i < Q_SIZE - 1 ==> #[trigger] spec_slots(received, time)[i]
                == received[i],
        spec_slots(received, time)[Q_SIZE - 1] == (TIME_COLUMN, time),
{
}

/// The readings of `s` in column `k`, in their order in `s`.
pub open spec fn in_column(s: Seq<Reading>, k: int) -> Seq<Reading> {
    s.filter(|e: Reading| e.0 == k)
}

/// The readings of `s` in columns below `k`: column by column, each in its
/// order in `s`.
pub open spec fn columns_below(s: Seq<Reading>, k: int) -> Seq<Reading>
    decreases k,
{
    if k <= 0 {
        seq![]
    } else {
        columns_below(s, k - 1) + in_column(s, k - 1)
    }
}

/// `s` ordered by column; readings of one column keep their order.
pub open spec fn by_column(s: Seq<Reading>) -> Seq<Reading> {
    columns_below(s, 256)
}

/// Orders readings by column; readings of one column keep their order.
pub fn sort_by_column(entries: &Vec<Reading>) -> (r: Vec<Reading>)
    ensures
        r@ == by_column(entries@),
{
    let mut out: Vec<Reading> = Vec::new();
    let mut k: u16 = 0;
    while k < 256
        invariant
            k <= 256,
            out@ == columns_below(entries@, k as int),
        decreases 256 - k,
    {
        let mut j: usize = 0;
        let ghost before = out@;
        while j < entries.len()
            invariant
                k < 256,
                j <= entries@.len(),
                before == columns_below(entries@, k as int),
                out@ == before + in_column(entries@.take(j as int), k as int),
            decreases entries@.len() - j,
        {
            let e = entries[j];
            proof {
                reveal(Seq::filter);
                assert(entries@.take(j + 1).drop_last() =~= entries@.take(j as int));
            }
            if e.0 as u16 == k {
                out.push(e);
            }
            j = j + 1;
        }
        assert(entries@.take(entries@.len() as int) =~= entries@);
        k = k + 1;
    }
    out
}

proof fn lemma_columns_below_range(s: Seq<Reading>, k: int)
    ensures
        forall|i: int|
            0 <= i < columns_below(s, k).len() ==> #[trigger] columns_below(s, k)[i].0 < k,
        forall|i: int, j: int|
            0 <= i < j < columns_below(s, k).len() ==> #[trigger] columns_below(s, k)[i].0
                <= #[trigger] columns_below(s, k)[j].0,
    decreases k,
{
    if k > 0 {
        lemma_columns_below_range(s, k - 1);
        let a = columns_below(s, k - 1);
        let b = in_column(s, k - 1);
        assert(columns_below(s, k) == a + b);
        lemma_in_column_cols(s, k - 1);
    }
}

proof fn lemma_in_column_cols(s: Seq<Reading>, k: int)
    ensures
        forall|i: int| 0 <= i < in_column(s, k).len() ==> #[trigger] in_column(s, k)[i].0 == k,
    decreases s.len(),
{
    reveal(Seq::filter);
    if s.len() > 0 {
        lemma_in_column_cols(s.drop_last(), k);
    }
}

/// Ordering by column leaves the readings in increasing column order.
pub proof fn lemma_by_column_sorted(s: Seq<Reading>)
    ensures
        forall|i: int, j: int|
            0 <= i < j < by_column(s).len() ==> #[trigger] by_column(s)[i].0
                <= #[trigger] by_column(s)[j].0,
{
    lemma_columns_below_range(s, 256);
}

proof fn lemma_columns_below_push(s: Seq<Reading>, x: Reading, k: int)
    ensures
        columns_below(s.push(x), k).to_multiset() == if 0 <= x.0 < k {
            columns_below(s, k).to_multiset().insert(x)
        } else {
            columns_below(s, k).to_multiset()
        },
    decreases k,
{
    if k > 0 {
        lemma_columns_below_push(s, x, k - 1);
        reveal(Seq::filter);
        let pred = |e: Reading| e.0 == k - 1;
        assert(s.push(x).drop_last() =~= s);
        vstd::seq_lib::lemma_multiset_commutative(columns_below(s.push(x), k - 1), in_column(s.push(x), k - 1));
        vstd::seq_lib::lemma_multiset_commutative(columns_below(s, k - 1), in_column(s, k - 1));
        if x.0 == k - 1 {
            assert(in_column(s.push(x), k - 1) == in_column(s, k - 1).push(x));
        } else {
            assert(in_column(s.push(x), k - 1) == in_column(s, k - 1));
        }
        assert(columns_below(s.push(x), k).to_multiset() =~= if 0 <= x.0 < k {
            columns_below(s, k).to_multiset().insert(x)
        } else {
            columns_below(s, k).to_multiset()
        });
    } else {
        assert(columns_below(s.push(x), k) == Seq::<Reading>::empty());
        assert(columns_below(s, k) == Seq::<Reading>::empty());
    }
}

/// Ordering by column neither drops nor adds a reading.
pub proof fn lemma_by_column_permutation(s: Seq<Reading>)
    ensures
        by_column(s).to_multiset() == s.to_multiset(),
    decreases s.len(),
{
    if s.len() == 0 {
        lemma_columns_below_empty(s, 256);
    } else {
        lemma_by_column_permutation(s.drop_last());
        assert(s.drop_last().push(s.last()) =~= s);
        lemma_columns_below_push(s.drop_last(), s.last(), 256);
    }
}

proof fn lemma_columns_below_empty(s: Seq<Reading>, k: int)
    requires
        s.len() == 0,
    ensures
        columns_below(s, k).len() == 0,
    decreases k,
{
    reveal(Seq::filter);
    if k > 0 {
        lemma_columns_below_empty(s, k - 1);
    }
}


/// Whether a cell is blank: all its bytes are zero. Blank readings add
/// nothing to a row.
pub open spec fn is_blank(cell: [u8; BUFFER_LENGTH]) -> bool {
    cell@ == blank_cell()
}

/// The bytes of a cell that go into a row: all but the zero padding bytes.
pub open spec fn kept_bytes(cell: Seq<u8>) -> Seq<u8> {
    cell.filter(|c: u8| c != SKIPPED_BYTE)
}

/// `n` separators.
pub open spec fn separators(n: int) -> Seq<u8> {
    Seq::new(n as nat, |i: int| SEPARATOR)
}

/// The separators needed to move from column `reached` to column `column`
/// (none when `column` is not past `reached`).
pub open spec fn padding(column: u8, reached: u8) -> int {
    if column > reached {
        column - reached
    } else {
        0
    }
}

/// The text of a row from the readings `s`, in their order, and the column
/// reached at its end. Each non-blank reading is preceded by the separators
/// that move from the column reached to its own column, then adds the kept
/// bytes of its cell; blank readings add nothing.
pub open spec fn row_fields(s: Seq<Reading>) -> (Seq<u8>, u8)
    decreases s.len(),
{
    if s.len() == 0 {
        (seq![], 0u8)
    } else {
        let prev = row_fields(s.drop_last());
        let e = s.last();
        if is_blank(e.1) {
            prev
        } else {
            (
                prev.0 + separators(padding(e.0, prev.1)) + kept_bytes(e.1@),
                if e.0 > prev.1 {
                    e.0
                } else {
                    prev.1
                },
            )
        }
    }
}

/// The text of a row from the readings `s`.
pub open spec fn row_text(s: Seq<Reading>) -> Seq<u8> {
    row_fields(s).0
}

/// Whether the text of a row fits in a line with the leading zero byte and
/// the newline.
pub open spec fn row_fits(s: Seq<Reading>) -> bool {
    row_text(s).len() + 2 <= LINE_LENGTH
}

/// The line written to the card: a zero byte, the text of the row, a
/// newline, then zero bytes to the end of the line.
pub open spec fn spec_line(s: Seq<Reading>) -> Seq<u8> {
    let text = row_text(s);
    Seq::new(
        LINE_LENGTH as nat,
        |i: int|
            if 1 <= i <= text.len() {
                text[i - 1]
            } else if i == text.len() + 1 {
                NEWLINE
            } else {
                0u8
            },
    )
}

/// Whether a cell is blank.
pub fn cell_is_blank(cell: &[u8; BUFFER_LENGTH]) -> (r: bool)
    ensures
        r == is_blank(*cell),
{
    let mut i: usize = 0;
    while i < BUFFER_LENGTH
        invariant
            i <= BUFFER_LENGTH,
            forall|j: int| 0 <= j < i ==> cell@[j] == 0,
        decreases BUFFER_LENGTH - i,
    {
        if cell[i] != 0 {
            assert(cell@[i as int] != blank_cell()[i as int]);
            return false;
        }
        i = i + 1;
    }
    assert(cell@ =~= blank_cell());
    true
}

/// The line for the readings `readings`, taken in their order; `None` when
/// the text does not fit in a line.
pub fn build_line(readings: &Vec<Reading>) -> (r: Option<[u8; LINE_LENGTH]>)
    ensures
        r is Some <==> row_fits(readings@),
        r matches Some(line) ==> line@ == spec_line(readings@),
{
    let mut text: Vec<u8> = Vec::new();
    let mut act_col: u8 = 0;
    let mut i: usize = 0;
    while i < readings.len()
        invariant
            i <= readings@.len(),
            (text@, act_col) == row_fields(readings@.take(i as int)),
        decreases readings@.len() - i,
    {
        let (col, data) = readings[i];
        proof {
            assert(readings@.take(i + 1).drop_last() =~= readings@.take(i as int));
            assert(readings@.take(i + 1).last() == readings@[i as int]);
        }
        if !cell_is_blank(&data) {
            let ghost start = text@;
            let ghost start_col = act_col;
            while col > act_col
                invariant
                    start_col <= act_col <= col || (col <= start_col && act_col == start_col),
                    text@ == start + separators(act_col - start_col),
                decreases col - act_col,
            {
                text.push(SEPARATOR);
                act_col = act_col + 1;
                assert(text@ =~= start + separators(act_col - start_col));
            }
            assert(act_col - start_col == padding(col, start_col));
            let ghost padded = text@;
            let mut b: usize = 0;
            while b < BUFFER_LENGTH
                invariant
                    b <= BUFFER_LENGTH,
                    text@ == padded + kept_bytes(data@.take(b as int)),
                decreases BUFFER_LENGTH - b,
            {
                proof {
                    reveal(Seq::filter);
                    assert(data@.take(b + 1).drop_last() =~= data@.take(b as int));
                }
                if data[b] != SKIPPED_BYTE {
                    text.push(data[b]);
                }
                assert(text@ =~= padded + kept_bytes(data@.take(b + 1)));
                b = b + 1;
            }
            assert(data@.take(BUFFER_LENGTH as int) =~= data@);
        }
        i = i + 1;
    }
    assert(readings@.take(readings@.len() as int) =~= readings@);
    if text.len() >= LINE_LENGTH - 1 {
        return None;
    }
    let mut line: [u8; LINE_LENGTH] = [0u8; LINE_LENGTH];
    let mut l_p: usize = 0;
    while l_p < text.len()
        invariant
            text@.len() + 2 <= LINE_LENGTH,
            l_p <= text@.len(),
            forall|j: int|
                0 <= j < LINE_LENGTH ==> #[trigger] line@[j] == if 1 <= j <= l_p {
                    text@[j - 1]
                } else {
                    0u8
                },
        decreases text@.len() - l_p,
    {
        line[l_p + 1] = text[l_p];
        l_p = l_p + 1;
    }
    line[text.len() + 1] = NEWLINE;
    assert(line@ =~= spec_line(readings@));
    Some(line)
}

/// The line for the readings received since the last row and the time of
/// day: the readings are put in the slots of a row with the time in the last
/// slot, ordered by column, and written out; `None` when the text does not
/// fit in a line.
pub open spec fn spec_row_readings(received: Seq<Reading>, time: [u8; BUFFER_LENGTH]) -> Seq<Reading> {
    by_column(spec_slots(received, time))
}

/// Builds the line for the readings received since the last row, at the
/// time of day `time`.
pub fn assemble_row(received: &Vec<Reading>, time: [u8; BUFFER_LENGTH]) -> (r: Option<[u8; LINE_LENGTH]>)
    requires
        received@.len() <= Q_SIZE,
    ensures
        r is Some <==> row_fits(spec_row_readings(received@, time)),
        r matches Some(line) ==> line@ == spec_line(spec_row_readings(received@, time)),
        forall|i: int|
            0 <= i < received@.len() && i < Q_SIZE - 1 ==> spec_row_readings(received@, time).contains(
                #[trigger] received@[i],
            ),
        spec_row_readings(received@, time).contains((TIME_COLUMN, time)),
{
    let slots = fill_slots(received, time);
    let sorted = sort_by_column(&slots);
    proof {
        assert forall|i: int| 0 <= i < received@.len() && i < Q_SIZE - 1 implies spec_row_readings(
            received@,
            time,
        ).contains(#[trigger] received@[i]) by {
            lemma_row_keeps_received(received@, time, i);
        }
        lemma_row_keeps_time(received@, time);
    }
    build_line(&sorted)
}

/// A row is gathered from every reading received before its last slot,
/// whatever its column: ordering the slots by column drops none of them.
pub proof fn lemma_row_keeps_received(received: Seq<Reading>, time: [u8; BUFFER_LENGTH], i: int)
    requires
        0 <= i < received.len(),
        i < Q_SIZE - 1,
    ensures
        spec_row_readings(received, time).contains(received[i]),
{
    let slots = spec_slots(received, time);
    lemma_slots_keep_received(received, time);
    lemma_by_column_permutation(slots);
    assert(slots.contains(received[i])) by {
        assert(slots[i] == received[i]);
    }
    assert(slots.to_multiset().count(received[i]) > 0);
    assert(by_column(slots).to_multiset().count(received[i]) > 0);
}

/// A row is gathered with the time of day in the time column.
pub proof fn lemma_row_keeps_time(received: Seq<Reading>, time: [u8; BUFFER_LENGTH])
    ensures
        spec_row_readings(received, time).contains((TIME_COLUMN, time)),
{
    let slots = spec_slots(received, time);
    lemma_slots_keep_received(received, time);
    lemma_by_column_permutation(slots);
    assert(slots.contains((TIME_COLUMN, time))) by {
        assert(slots[Q_SIZE - 1] == (TIME_COLUMN, time));
    }
    assert(slots.to_multiset().count((TIME_COLUMN, time)) > 0);
    assert(by_column(slots).to_multiset().count((TIME_COLUMN, time)) > 0);
}

/// A blank reading, wherever it is inserted among the readings, leaves the
/// row unchanged.
pub proof fn lemma_blank_reading_ignored(s: Seq<Reading>, i: int, x: Reading)
    requires
        0 <= i <= s.len(),
        is_blank(x.1),
    ensures
        row_fields(s.insert(i, x)) == row_fields(s),
    decreases s.len(),
{
    if i == s.len() {
        assert(s.insert(i, x).drop_last() =~= s);
    } else {
        lemma_blank_reading_ignored(s.drop_last(), i, x);
        assert(s.insert(i, x).drop_last() =~= s.drop_last().insert(i, x));
        assert(s.insert(i, x).last() == s.last());
    }
}

/// How many times `b` occurs in `s`.
pub open spec fn count_byte(s: Seq<u8>, b: u8) -> nat
    decreases s.len(),
{
    if s.len() == 0 {
        0
    } else {
        count_byte(s.drop_last(), b) + if s.last() == b { 1nat } else { 0nat }
    }
}

proof fn lemma_count_byte_concat(a: Seq<u8>, c: Seq<u8>, b: u8)
    ensures
        count_byte(a + c, b) == count_byte(a, b) + count_byte(c, b),
    decreases c.len(),
{
    if c.len() > 0 {
        lemma_count_byte_concat(a, c.drop_last(), b);
        assert((a + c).drop_last() =~= a + c.drop_last());
    } else {
        assert(a + c =~= a);
    }
}

proof fn lemma_count_separators(n: int)
    requires
        n >= 0,
    ensures
        count_byte(separators(n), SEPARATOR) == n,
    decreases n,
{
    if n > 0 {
        lemma_count_separators(n - 1);
        assert(separators(n).drop_last() =~= separators(n - 1));
    } else {
        assert(separators(n).len() == 0);
    }
}

proof fn lemma_kept_bytes_no_separator(cell: Seq<u8>)
    requires
        !cell.contains(SEPARATOR),
    ensures
        count_byte(kept_bytes(cell), SEPARATOR) == 0,
    decreases cell.len(),
{
    reveal(Seq::filter);
    if cell.len() > 0 {
        assert(!cell.drop_last().contains(SEPARATOR)) by {
            if cell.drop_last().contains(SEPARATOR) {
                let k = choose|k: int| 0 <= k < cell.drop_last().len() && cell.drop_last()[k] == SEPARATOR;
                assert(cell[k] == SEPARATOR);
            }
        }
        lemma_kept_bytes_no_separator(cell.drop_last());
        assert(cell.last() != SEPARATOR) by {
            assert(cell[cell.len() - 1] == cell.last());
        }
        let rest = kept_bytes(cell.drop_last());
        if cell.last() != SKIPPED_BYTE {
            assert(kept_bytes(cell) == rest.push(cell.last()));
            assert(rest.push(cell.last()).drop_last() =~= rest);
        } else {
            assert(kept_bytes(cell) == rest);
        }
    } else {
        assert(kept_bytes(cell).len() == 0);
    }
}

/// Whether no reading of `s` carries a separator in its cell.
pub open spec fn cells_without_separators(s: Seq<Reading>) -> bool {
    forall|i: int| 0 <= i < s.len() ==> !(#[trigger] s[i].1@).contains(SEPARATOR)
}

/// Whether the readings of `s` are in increasing column order.
pub open spec fn in_column_order(s: Seq<Reading>) -> bool {
    forall|i: int, j: int| 0 <= i < j < s.len() ==> #[trigger] s[i].0 <= #[trigger] s[j].0
}

/// Where the cells hold no separators, the separators of a row count the
/// column reached.
proof fn lemma_separators_count_reached(s: Seq<Reading>)
    requires
        cells_without_separators(s),
    ensures
        count_byte(row_text(s), SEPARATOR) == row_fields(s).1,
    decreases s.len(),
{
    if s.len() > 0 {
        let t = s.drop_last();
        assert(cells_without_separators(t)) by {
            assert forall|i: int| 0 <= i < t.len() implies !(#[trigger] t[i].1@).contains(SEPARATOR) by {
                assert(t[i] == s[i]);
            }
        }
        lemma_separators_count_reached(t);
        let e = s.last();
        if !is_blank(e.1) {
            let prev = row_fields(t);
            assert(e == s[s.len() - 1]);
            lemma_count_byte_concat(prev.0, separators(padding(e.0, prev.1)), SEPARATOR);
            lemma_count_byte_concat(
                prev.0 + separators(padding(e.0, prev.1)),
                kept_bytes(e.1@),
                SEPARATOR,
            );
            lemma_count_separators(padding(e.0, prev.1));
            lemma_kept_bytes_no_separator(e.1@);
        }
    }
}

/// The column reached after readings is zero or the column of one of them.
proof fn lemma_reached_is_a_column(s: Seq<Reading>)
    ensures
        row_fields(s).1 == 0 || exists|i: int| 0 <= i < s.len() && s[i].0 == row_fields(s).1,
    decreases s.len(),
{
    if s.len() > 0 {
        let t = s.drop_last();
        lemma_reached_is_a_column(t);
        if row_fields(s).1 != 0 && row_fields(s).1 != s.last().0 {
            assert(row_fields(s).1 == row_fields(t).1);
            let i = choose|i: int| 0 <= i < t.len() && t[i].0 == row_fields(t).1;
            assert(s[i] == t[i]);
        } else if row_fields(s).1 != 0 {
            assert(s[s.len() - 1] == s.last());
        }
    }
}

/// The text of a row that comes before the kept bytes of reading `j`: the
/// text of the readings before it and the separators that move on to its
/// column.
pub open spec fn text_before(s: Seq<Reading>, j: int) -> Seq<u8> {
    let prev = row_fields(s.take(j));
    prev.0 + separators(padding(s[j].0, prev.1))
}

proof fn lemma_row_text_prefix(s: Seq<Reading>, k: int)
    requires
        0 <= k <= s.len(),
    ensures
        row_text(s.take(k)).is_prefix_of(row_text(s)),
    decreases s.len() - k,
{
    if k < s.len() {
        lemma_row_text_prefix(s, k + 1);
        assert(s.take(k + 1).drop_last() =~= s.take(k));
        let a = row_text(s.take(k));
        let b = row_text(s.take(k + 1));
        assert(a.is_prefix_of(b)) by {
            if !is_blank(s.take(k + 1).last().1) {
                assert forall|i: int| 0 <= i < a.len() implies b[i] == a[i] by {}
            }
        }
    } else {
        assert(s.take(k) =~= s);
    }
}

/// Columns line up: in a row built from readings in column order whose cells
/// hold no separators, the kept bytes of every non-blank reading come right
/// after a stretch of the row that holds exactly as many separators as the
/// reading's column number.
pub proof fn lemma_row_columns_align(s: Seq<Reading>, j: int)
    requires
        in_column_order(s),
        cells_without_separators(s),
        0 <= j < s.len(),
        !is_blank(s[j].1),
    ensures
        (text_before(s, j) + kept_bytes(s[j].1@)).is_prefix_of(row_text(s)),
        count_byte(text_before(s, j), SEPARATOR) == s[j].0,
{
    let t = s.take(j);
    assert(s.take(j + 1).drop_last() =~= t);
    assert(s.take(j + 1).last() == s[j]);
    lemma_row_text_prefix(s, j + 1);
    assert(cells_without_separators(t)) by {
        assert forall|i: int| 0 <= i < t.len() implies !(#[trigger] t[i].1@).contains(SEPARATOR) by {
            assert(t[i] == s[i]);
        }
    }
    lemma_separators_count_reached(t);
    lemma_reached_is_a_column(t);
    let reached = row_fields(t).1;
    assert(reached <= s[j].0) by {
        if reached != 0 {
            let i = choose|i: int| 0 <= i < t.len() && t[i].0 == reached;
            assert(t[i] == s[i]);
        }
    }
    lemma_count_byte_concat(row_text(t), separators(padding(s[j].0, reached)), SEPARATOR);
    lemma_count_separators(padding(s[j].0, reached));
}

/// Rows are gathered in column order: the readings a row is built from are
/// in increasing column order and are exactly the slots of the row.
pub proof fn lemma_row_readings_ordered(received: Seq<Reading>, time: [u8; BUFFER_LENGTH])
    ensures
        in_column_order(spec_row_readings(received, time)),
        spec_row_readings(received, time).to_multiset() == spec_slots(received, time).to_multiset(),
{
    lemma_by_column_sorted(spec_slots(received, time));
    lemma_by_column_permutation(spec_slots(received, time));
}

} // verus!
