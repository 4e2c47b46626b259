//! The spoken-frequency table: which columns it has and how its rows read.
use vstd::prelude::*;
use crate::text::{
    chars_of, next_line, parse_i64, spec_lines, spec_parse_i64, spec_split, split, string_of,
};

verus! {

/// Number of per-category frequency columns kept for each word.
pub const FREQ_COLUMN_COUNT: usize = 16;

/// Fewest tab-separated fields a row of the table must have.
pub const MIN_TSV_FIELDS: usize = 19;

/// Name of the `k`-th frequency column.
pub open spec fn spec_freq_column_name(k: int) -> Seq<char> {
    if k == 0 {
        "freq_total"@
    } else if k == 1 {
        "freq_howto"@
    } else if k == 2 {
        "freq_science"@
    } else if k == 3 {
        "freq_entertainment"@
    } else if k == 4 {
        "freq_education"@
    } else if k == 5 {
        "freq_people"@
    } else if k == 6 {
        "freq_music"@
    } else if k == 7 {
        "freq_autos"@
    } else if k == 8 {
        "freq_comedy"@
    } else if k == 9 {
        "freq_film"@
    } else if k == 10 {
        "freq_gaming"@
    } else if k == 11 {
        "freq_sports"@
    } else if k == 12 {
        "freq_news"@
    } else if k == 13 {
        "freq_nonprofits"@
    } else if k == 14 {
        "freq_travel"@
    } else {
        "freq_pets"@
    }
}

/// Name of the `k`-th frequency column: the total, then the categories in
/// table order.
pub fn freq_column_name(k: usize) -> (name: &'static str)
    requires
        k < FREQ_COLUMN_COUNT,
    ensures
        name@ == spec_freq_column_name(k as int),
{
    match k {
        0 => "freq_total",
        1 => "freq_howto",
        2 => "freq_science",
        3 => "freq_entertainment",
        4 => "freq_education",
        5 => "freq_people",
        6 => "freq_music",
        7 => "freq_autos",
        8 => "freq_comedy",
        9 => "freq_film",
        10 => "freq_gaming",
        11 => "freq_sports",
        12 => "freq_news",
        13 => "freq_nonprofits",
        14 => "freq_travel",
        _ => "freq_pets",
    }
}

/// The table field that the `k`-th frequency column is read from: the total
/// is field 1, the categories fields 4 to 18.
pub open spec fn source_field(k: int) -> int {
    if k == 0 {
        1
    } else {
        k + 3
    }
}

/// A number field, zero when it is not a number.
pub open spec fn number_or_zero(f: Seq<char>) -> i64 {
    match spec_parse_i64(f) {
        Some(v) => v,
        None => 0,
    }
}

/// The word and frequency counts a table line gives; none when the line has
/// fewer than 19 fields.
pub open spec fn frequency_line(line: Seq<char>) -> Option<(Seq<char>, Seq<i64>)> {
    let fields = spec_split(line, '\t');
    if fields.len() < 19 {
        None
    } else {
        Some(
            (
                fields[0],
                Seq::new(16, |k: int| number_or_zero(fields[source_field(k)])),
            ),
        )
    }
}

/// The rows of the given lines, in order.
pub open spec fn frequency_rows_of(ls: Seq<Seq<char>>) -> Seq<(Seq<char>, Seq<i64>)>
    decreases ls.len(),
{
    if ls.len() == 0 {
        seq![]
    } else {
        let prev = frequency_rows_of(ls.drop_last());
        match frequency_line(ls.last()) {
            Some(r) => prev.push(r),
            None => prev,
        }
    }
}

/// The lines of the table after its header line.
pub open spec fn data_lines(content: Seq<char>) -> Seq<Seq<char>> {
    let ls = spec_lines(content);
    if ls.len() == 0 {
        ls
    } else {
        ls.skip(1)
    }
}

/// A word of the frequency table with its counts, in column order.
pub struct FrequencyRow {
    pub word: String,
    pub counts: Vec<i64>,
}

impl FrequencyRow {
    pub open spec fn view(&self) -> (Seq<char>, Seq<i64>) {
        (self.word@, self.counts@)
    }
}

/// The row of one table line.
pub fn parse_frequency_line(line: &Vec<char>) -> (res: Option<FrequencyRow>)
    ensures
        match res {
            Some(r) => frequency_line(line@) == Some(r@),
            None => frequency_line(line@) is None,
        },
{
    let fields = split(line, '\t');
    if fields.len() < MIN_TSV_FIELDS {
        return None;
    }
    let ghost fv = spec_split(line@, '\t');
    let mut counts: Vec<i64> = Vec::new();
    for k in 0..FREQ_COLUMN_COUNT
        invariant
            fields@.len() == fv.len() >= 19,
            fv == spec_split(line@, '\t'),
            forall|j: int| 0 <= j < fields@.len() ==> #[trigger] fields@[j]@ == fv[j],
            counts@.len() == k,
            forall|j: int| 0 <= j < k ==> #[trigger] counts@[j] == number_or_zero(fv[source_field(j)]),
    {
        let f = if k == 0 {
            1
        } else {
            k + 3
        };
        assert(fields@[f as int]@ == fv[source_field(k as int)]);
        let v = match parse_i64(&fields[f]) {
            Some(v) => v,
            None => 0,
        };
        counts.push(v);
    }
    let row = FrequencyRow { word: string_of(&fields[0]), counts };
    assert(row.counts@ =~= Seq::new(16, |k: int| number_or_zero(fv[source_field(k)])));
    Some(row)
}

/// The rows of a frequency table (tab-separated, one header line): for each
/// line with at least 19 fields, the word in field 0 and the counts of
/// fields 1 and 4 to 18, a field that is not a number counting as zero.
pub fn parse_frequency_table(content: &str) -> (rows: Vec<FrequencyRow>)
    ensures
        rows@.map_values(|r: FrequencyRow| r@) == frequency_rows_of(data_lines(content@)),
{
    let cs = chars_of(content);
    let ghost all = spec_lines(content@);
    let mut rows: Vec<FrequencyRow> = Vec::new();
    assert(cs@.skip(0) == cs@);
    if cs.len() == 0 {
        assert(rows@.map_values(|r: FrequencyRow| r@) =~= Seq::<(Seq<char>, Seq<i64>)>::empty());
        return rows;
    }
    let (header, mut start) = next_line(&cs, 0);
    let ghost mut done: Seq<Seq<char>> = seq![];
    assert(seq![header@] + done == seq![header@]);
    assert(rows@.map_values(|r: FrequencyRow| r@) =~= frequency_rows_of(done));
    while start < cs.len()
        invariant
            start <= cs.len(),
            cs@ == content@,
            all == spec_lines(content@),
            seq![header@] + done + spec_lines(cs@.skip(start as int)) == all,
            rows@.map_values(|r: FrequencyRow| r@) == frequency_rows_of(done),
        decreases cs.len() - start,
    {
        let (line, next) = next_line(&cs, start);
        proof {
            assert(seq![header@] + done.push(line@) + spec_lines(cs@.skip(next as int)) == seq![
                header@,
            ] + done + (seq![line@] + spec_lines(cs@.skip(next as int))));
            assert(done.push(line@).drop_last() == done);
        }
        match parse_frequency_line(&line) {
            Some(r) => {
                let ghost before = rows@;
                rows.push(r);
                assert(rows@.map_values(|r: FrequencyRow| r@) =~= before.map_values(
                    |r: FrequencyRow| r@,
                ).push(r@));
            },
            None => {},
        }
        proof {
            done = done.push(line@);
        }
        start = next;
    }
    assert(cs@.skip(start as int).len() == 0);
    assert(seq![header@] + done + seq![] == seq![header@] + done);
    assert(all.len() > 0);
    assert(all.skip(1) =~= done);
    rows
}

} // verus!
