//! Baseline CSV rows: category codes, sovereign-entity detection and the row
//! parser of the seven-column entity index.
//!
//! The data set has no quoting and no ASCII comma inside a field (fields use
//! full-width punctuation), so a row is valid when it splits into exactly seven
//! comma-separated fields and holds no `"`.

use vstd::prelude::*;
use vstd::arithmetic::div_mod::lemma_add_mod_noop;
use crate::constants::{DELTA_RING_CAPACITY, K_MAX, MAX_ENTITIES, MAX_SLICES};
use crate::entity::{DeltaEvent, Entity, SteadyState};
use crate::text::{
    chars_of, contains_seq, occurs_at, pieces, split_bounds, split_on, trim, trim_bounds, trim_start,
};

verus! {

/// Number of facets a loaded entity carries.
pub const NUM_FACETS: u8 = 4;

/// Number of active endpoints of each facet of a loaded entity.
pub const FACET_ENDPOINTS: u8 = 4;

/// The category code a field names: the first character after trimming, `A`..`E` as `0..4`.
pub open spec fn category_of(field: Seq<char>) -> Option<u8> {
    let t = trim(field);
    if t.len() == 0 {
        None
    } else if t[0] == 'A' {
        Some(0u8)
    } else if t[0] == 'B' {
        Some(1u8)
    } else if t[0] == 'C' {
        Some(2u8)
    } else if t[0] == 'D' {
        Some(3u8)
    } else if t[0] == 'E' {
        Some(4u8)
    } else {
        None
    }
}

/// Number of sovereign / state-group name markers.
pub const NUM_MARKERS: usize = 20;

/// The `i`-th sovereign / state-group name marker.
pub open spec fn marker(i: int) -> Seq<char> {
    if i == 0 {
        seq!['中', '国']
    } else if i == 1 {
        seq!['中', '投']
    } else if i == 2 {
        seq!['中', '信']
    } else if i == 3 {
        seq!['招', '商', '局']
    } else if i == 4 {
        seq!['中', '金']
    } else if i == 5 {
        seq!['央', '企']
    } else if i == 6 {
        seq!['社', '保', '基', '金']
    } else if i == 7 {
        seq!['国', '新']
    } else if i == 8 {
        seq!['兵', '器']
    } else if i == 9 {
        seq!['航', '天']
    } else if i == 10 {
        seq!['航', '空']
    } else if i == 11 {
        seq!['五', '矿']
    } else if i == 12 {
        seq!['中', '船']
    } else if i == 13 {
        seq!['中', '核']
    } else if i == 14 {
        seq!['中', '石', '油']
    } else if i == 15 {
        seq!['中', '石', '化']
    } else if i == 16 {
        seq!['国', '家', '电', '网']
    } else if i == 17 {
        seq!['敦', '和']
    } else if i == 18 {
        seq!['高', '瓴']
    } else {
        seq!['红', '杉', '中', '国']
    }
}

/// An organisation name marks a Chinese sovereign / state entity when it contains a marker.
pub open spec fn is_chinese_name(org: Seq<char>) -> bool {
    exists|i: int| 0 <= i < NUM_MARKERS && contains_seq(org, #[trigger] marker(i))
}

/// A name is a sovereign / state-group name exactly when it contains one of the twenty
/// markers 中国, 中投, 中信, 招商局, 中金, 央企, 社保基金, 国新, 兵器, 航天, 航空, 五矿, 中船,
/// 中核, 中石油, 中石化, 国家电网, 敦和, 高瓴, 红杉中国.
pub proof fn lemma_chinese_name_markers(org: Seq<char>)
    ensures
        is_chinese_name(org) <==> {
            ||| contains_seq(org, seq!['中', '国'])
            ||| contains_seq(org, seq!['中', '投'])
            ||| contains_seq(org, seq!['中', '信'])
            ||| contains_seq(org, seq!['招', '商', '局'])
            ||| contains_seq(org, seq!['中', '金'])
            ||| contains_seq(org, seq!['央', '企'])
            ||| contains_seq(org, seq!['社', '保', '基', '金'])
            ||| contains_seq(org, seq!['国', '新'])
            ||| contains_seq(org, seq!['兵', '器'])
            ||| contains_seq(org, seq!['航', '天'])
            ||| contains_seq(org, seq!['航', '空'])
            ||| contains_seq(org, seq!['五', '矿'])
            ||| contains_seq(org, seq!['中', '船'])
            ||| contains_seq(org, seq!['中', '核'])
            ||| contains_seq(org, seq!['中', '石', '油'])
            ||| contains_seq(org, seq!['中', '石', '化'])
            ||| contains_seq(org, seq!['国', '家', '电', '网'])
            ||| contains_seq(org, seq!['敦', '和'])
            ||| contains_seq(org, seq!['高', '瓴'])
            ||| contains_seq(org, seq!['红', '杉', '中', '国'])
        },
{
    if is_chinese_name(org) {
        let i = choose|i: int| 0 <= i < NUM_MARKERS && contains_seq(org, #[trigger] marker(i));
        assert(contains_seq(org, marker(i)));
    }
    assert(contains_seq(org, seq!['中', '国']) ==> contains_seq(org, marker(0)));
    assert(contains_seq(org, seq!['中', '投']) ==> contains_seq(org, marker(1)));
    assert(contains_seq(org, seq!['中', '信']) ==> contains_seq(org, marker(2)));
    assert(contains_seq(org, seq!['招', '商', '局']) ==> contains_seq(org, marker(3)));
    assert(contains_seq(org, seq!['中', '金']) ==> contains_seq(org, marker(4)));
    assert(contains_seq(org, seq!['央', '企']) ==> contains_seq(org, marker(5)));
    assert(contains_seq(org, seq!['社', '保', '基', '金']) ==> contains_seq(org, marker(6)));
    assert(contains_seq(org, seq!['国', '新']) ==> contains_seq(org, marker(7)));
    assert(contains_seq(org, seq!['兵', '器']) ==> contains_seq(org, marker(8)));
    assert(contains_seq(org, seq!['航', '天']) ==> contains_seq(org, marker(9)));
    assert(contains_seq(org, seq!['航', '空']) ==> contains_seq(org, marker(10)));
    assert(contains_seq(org, seq!['五', '矿']) ==> contains_seq(org, marker(11)));
    assert(contains_seq(org, seq!['中', '船']) ==> contains_seq(org, marker(12)));
    assert(contains_seq(org, seq!['中', '核']) ==> contains_seq(org, marker(13)));
    assert(contains_seq(org, seq!['中', '石', '油']) ==> contains_seq(org, marker(14)));
    assert(contains_seq(org, seq!['中', '石', '化']) ==> contains_seq(org, marker(15)));
    assert(contains_seq(org, seq!['国', '家', '电', '网']) ==> contains_seq(org, marker(16)));
    assert(contains_seq(org, seq!['敦', '和']) ==> contains_seq(org, marker(17)));
    assert(contains_seq(org, seq!['高', '瓴']) ==> contains_seq(org, marker(18)));
    assert(contains_seq(org, seq!['红', '杉', '中', '国']) ==> contains_seq(org, marker(19)));
}

fn markers() -> (r: Vec<Vec<char>>)
    ensures
        r@.len() == NUM_MARKERS,
        forall|i: int| 0 <= i < NUM_MARKERS ==> (#[trigger] r@[i])@ == marker(i),
{
    let r = vec![
        vec!['中', '国'],
        vec!['中', '投'],
        vec!['中', '信'],
        vec!['招', '商', '局'],
        vec!['中', '金'],
        vec!['央', '企'],
        vec!['社', '保', '基', '金'],
        vec!['国', '新'],
        vec!['兵', '器'],
        vec!['航', '天'],
        vec!['航', '空'],
        vec!['五', '矿'],
        vec!['中', '船'],
        vec!['中', '核'],
        vec!['中', '石', '油'],
        vec!['中', '石', '化'],
        vec!['国', '家', '电', '网'],
        vec!['敦', '和'],
        vec!['高', '瓴'],
        vec!['红', '杉', '中', '国'],
    ];
    assert(r@[0]@ =~= marker(0));
    assert(r@[1]@ =~= marker(1));
    assert(r@[2]@ =~= marker(2));
    assert(r@[3]@ =~= marker(3));
    assert(r@[4]@ =~= marker(4));
    assert(r@[5]@ =~= marker(5));
    assert(r@[6]@ =~= marker(6));
    assert(r@[7]@ =~= marker(7));
    assert(r@[8]@ =~= marker(8));
    assert(r@[9]@ =~= marker(9));
    assert(r@[10]@ =~= marker(10));
    assert(r@[11]@ =~= marker(11));
    assert(r@[12]@ =~= marker(12));
    assert(r@[13]@ =~= marker(13));
    assert(r@[14]@ =~= marker(14));
    assert(r@[15]@ =~= marker(15));
    assert(r@[16]@ =~= marker(16));
    assert(r@[17]@ =~= marker(17));
    assert(r@[18]@ =~= marker(18));
    assert(r@[19]@ =~= marker(19));
    r
}

/// Whether `needle` occurs in `hay[lo..hi]` at position `lo + i`.
fn occurs_at_exec(hay: &[char], lo: usize, hi: usize, needle: &[char], i: usize) -> (r: bool)
    requires
        lo <= hi <= hay@.len(),
    ensures
        r == occurs_at(hay@.subrange(lo as int, hi as int), needle@, i as int),
{
    let ghost h = hay@.subrange(lo as int, hi as int);
    if i > hi - lo || needle.len() > hi - lo - i {
        return false;
    }
    let mut j: usize = 0;
    while j < needle.len()
        invariant
            lo <= hi <= hay@.len(),
            i + needle@.len() <= hi - lo,
            h == hay@.subrange(lo as int, hi as int),
            j <= needle@.len(),
            forall|t: int| 0 <= t < j ==> #[trigger] h[i + t] == needle@[t],
        decreases needle@.len() - j,
    {
        assert(h[i + j] == hay@[lo + i + j]);
        if hay[lo + i + j] != needle[j] {
            assert(h.subrange(i as int, i + needle@.len())[j as int] != needle@[j as int]);
            return false;
        }
        j = j + 1;
    }
    assert forall|t: int| 0 <= t < needle@.len() implies #[trigger] h.subrange(
        i as int,
        i + needle@.len(),
    )[t] == needle@[t] by {
        assert(h.subrange(i as int, i + needle@.len())[t] == h[i + t]);
    }
    assert(h.subrange(i as int, i + needle@.len()) =~= needle@);
    true
}

/// Whether `needle` occurs in `hay[lo..hi]`.
fn contains_chars(hay: &[char], lo: usize, hi: usize, needle: &[char]) -> (r: bool)
    requires
        lo <= hi <= hay@.len(),
    ensures
        r == contains_seq(hay@.subrange(lo as int, hi as int), needle@),
{
    let ghost h = hay@.subrange(lo as int, hi as int);
    if needle.len() > hi - lo {
        assert(forall|i: int| !occurs_at(h, needle@, i));
        return false;
    }
    let last = hi - lo - needle.len();
    let mut i: usize = 0;
    loop
        invariant_except_break
            lo <= hi <= hay@.len(),
            last + needle@.len() == hi - lo,
            h == hay@.subrange(lo as int, hi as int),
            i <= last,
            forall|t: int| 0 <= t < i ==> !occurs_at(h, needle@, t),
        ensures
            last + needle@.len() == hi - lo,
            forall|t: int| 0 <= t <= last ==> !occurs_at(h, needle@, t),
        decreases last - i,
    {
        if occurs_at_exec(hay, lo, hi, needle, i) {
            return true;
        }
        if i == last {
            break;
        }
        i = i + 1;
    }
    assert forall|t: int| !occurs_at(h, needle@, t) by {
        if 0 <= t <= last {
        }
    }
    false
}

/// Whether `s[lo..hi]` names a Chinese sovereign / state entity.
fn chinese_chars(s: &[char], lo: usize, hi: usize) -> (r: bool)
    requires
        lo <= hi <= s@.len(),
    ensures
        r == is_chinese_name(s@.subrange(lo as int, hi as int)),
{
    let ms = markers();
    let mut i: usize = 0;
    while i < ms.len()
        invariant
            lo <= hi <= s@.len(),
            ms@.len() == NUM_MARKERS,
            forall|k: int| 0 <= k < NUM_MARKERS ==> (#[trigger] ms@[k])@ == marker(k),
            i <= ms@.len(),
            forall|k: int|
                0 <= k < i ==> !contains_seq(s@.subrange(lo as int, hi as int), #[trigger] marker(k)),
        decreases ms@.len() - i,
    {
        if contains_chars(s, lo, hi, ms[i].as_slice()) {
            assert(contains_seq(s@.subrange(lo as int, hi as int), marker(i as int)));
            return true;
        }
        i = i + 1;
    }
    false
}

/// Whether an organisation name marks a Chinese sovereign / state entity
/// (it contains one of the fixed name markers).
pub fn is_chinese_entity(org: &str) -> (r: bool)
    ensures
        r == is_chinese_name(org@),
{
    let cs = chars_of(org);
    assert(cs@.subrange(0, cs@.len() as int) =~= cs@);
    chinese_chars(cs.as_slice(), 0, cs.len())
}

/// The category code of `s[lo..hi]`.
fn category_chars(s: &[char], lo: usize, hi: usize) -> (r: Option<u8>)
    requires
        lo <= hi <= s@.len(),
    ensures
        r == category_of(s@.subrange(lo as int, hi as int)),
{
    let (a, b) = trim_bounds(s, lo, hi);
    if a == b {
        return None;
    }
    let c = s[a];
    assert(trim(s@.subrange(lo as int, hi as int))[0] == c);
    if c == 'A' {
        Some(0)
    } else if c == 'B' {
        Some(1)
    } else if c == 'C' {
        Some(2)
    } else if c == 'D' {
        Some(3)
    } else if c == 'E' {
        Some(4)
    } else {
        None
    }
}

/// The category code of a category field (`"A. ..."` is `0`, ..., `"E. ..."` is `4`);
/// `None` when its first non-blank character is not one of `A`..`E`.
pub fn category_code(cat_field: &str) -> (r: Option<u8>)
    ensures
        r == category_of(cat_field@),
{
    let cs = chars_of(cat_field);
    assert(cs@.subrange(0, cs@.len() as int) =~= cs@);
    category_chars(cs.as_slice(), 0, cs.len())
}

/// One parsed data row.
pub struct CsvRecord {
    /// Zero-based line number in the file (the header is line 0); the entity id.
    pub line: u32,
    /// Organisation name (first field, trimmed).
    pub org: Vec<char>,
    /// Category code; an unknown category is `4` (E).
    pub category: u8,
    /// Whether the organisation is a Chinese sovereign / state entity.
    pub chinese: bool,
}

/// The mathematical content of a parsed row.
pub struct CsvRecordModel {
    pub line: u32,
    pub org: Seq<char>,
    pub category: u8,
    pub chinese: bool,
}

impl View for CsvRecord {
    type V = CsvRecordModel;

    open spec fn view(&self) -> CsvRecordModel {
        CsvRecordModel {
            line: self.line,
            org: self.org@,
            category: self.category,
            chinese: self.chinese,
        }
    }
}

/// The text without a leading byte-order mark.
pub open spec fn without_bom(s: Seq<char>) -> Seq<char> {
    if s.len() > 0 && s[0] == '\u{feff}' {
        s.drop_first()
    } else {
        s
    }
}

/// The lines of a text: split at `\n`, a final line ending being optional.
///
/// A `\r` before the `\n` stays on the line; rows are trimmed, which removes it.
pub open spec fn lines_of(s: Seq<char>) -> Seq<Seq<char>> {
    let segs = split_on(s, '\n');
    if segs.last().len() == 0 {
        segs.drop_last()
    } else {
        segs
    }
}

/// The record a line yields, if it is a valid data row.
pub open spec fn record_of(line: Seq<char>, i: int) -> Option<CsvRecordModel> {
    let t = trim(line);
    let f = split_on(t, ',');
    if t.len() == 0 || t.contains('"') || f.len() != 7 {
        None
    } else {
        let org = trim(f[0]);
        Some(
            CsvRecordModel {
                line: i as u32,
                org,
                category: match category_of(trim(f[6])) {
                    Some(c) => c,
                    None => 4u8,
                },
                chinese: is_chinese_name(org),
            },
        )
    }
}

/// The records of the first `n` lines (line 0 is the header and yields none).
pub open spec fn records_upto(lines: Seq<Seq<char>>, n: int) -> Seq<CsvRecordModel>
    decreases n,
{
    if n <= 1 {
        Seq::empty()
    } else {
        let prev = records_upto(lines, n - 1);
        match record_of(lines[n - 1], n - 1) {
            Some(r) => prev.push(r),
            None => prev,
        }
    }
}

/// The records of a CSV text, in line order.
pub open spec fn csv_records(csv: Seq<char>) -> Seq<CsvRecordModel> {
    let ls = lines_of(without_bom(csv));
    records_upto(ls, ls.len() as int)
}

proof fn lemma_records_upto_prefix(a: Seq<Seq<char>>, b: Seq<Seq<char>>, n: int)
    requires
        0 <= n <= a.len(),
        n <= b.len(),
        forall|j: int| 0 <= j < n ==> a[j] == b[j],
    ensures
        records_upto(a, n) == records_upto(b, n),
    decreases n,
{
    if n > 1 {
        lemma_records_upto_prefix(a, b, n - 1);
        assert(a[n - 1] == b[n - 1]);
    }
}

/// A final line ending is optional: a CSV text gives the same records with or without a
/// `\n` after its last line, so a last row with no line ending is parsed like the others.
pub proof fn lemma_csv_final_newline_optional(t: Seq<char>)
    ensures
        csv_records(t.push('\n')) == csv_records(t),
{
    let s = without_bom(t);
    if t.len() > 0 && t[0] == '\u{feff}' {
        assert(without_bom(t.push('\n')) =~= s.push('\n'));
    } else {
        assert(without_bom(t.push('\n')) =~= s.push('\n'));
    }
    let segs = split_on(s, '\n');
    assert(s.push('\n').drop_last() =~= s);
    assert(split_on(s.push('\n'), '\n') == segs.push(Seq::<char>::empty()));
    assert(lines_of(s.push('\n')) =~= segs);
    if segs.last().len() == 0 {
        let l = segs.drop_last();
        let n = l.len() as int;
        lemma_split_on_nonempty(s, '\n');
        assert(segs.last() =~= Seq::<char>::empty());
        assert(segs =~= l.push(Seq::<char>::empty()));
        assert(lines_of(s) == l);
        if n >= 1 {
            assert(trim_start(segs[n]) == segs[n]);
            assert(trim(segs[n]).len() == 0);
            assert(record_of(segs[n], n) is None);
            lemma_records_upto_prefix(segs, l, n);
        }
    }
}

/// Whether `s[lo..hi]` holds a `"`.
fn has_quote(s: &[char], lo: usize, hi: usize) -> (r: bool)
    requires
        lo <= hi <= s@.len(),
    ensures
        r == s@.subrange(lo as int, hi as int).contains('"'),
{
    let ghost t = s@.subrange(lo as int, hi as int);
    let mut i = lo;
    while i < hi
        invariant
            lo <= i <= hi <= s@.len(),
            t == s@.subrange(lo as int, hi as int),
            forall|j: int| lo <= j < i ==> s@[j] != '"',
        decreases hi - i,
    {
        if s[i] == '"' {
            assert(t[i - lo] == '"');
            return true;
        }
        i = i + 1;
    }
    assert forall|j: int| 0 <= j < t.len() implies t[j] != '"' by {
        assert(t[j] == s@[lo + j]);
    }
    false
}

/// A copy of `s[lo..hi]`.
fn copy_chars(s: &[char], lo: usize, hi: usize) -> (r: Vec<char>)
    requires
        lo <= hi <= s@.len(),
    ensures
        r@ == s@.subrange(lo as int, hi as int),
{
    let mut out: Vec<char> = Vec::new();
    let mut i = lo;
    while i < hi
        invariant
            lo <= i <= hi <= s@.len(),
            out@ == s@.subrange(lo as int, i as int),
        decreases hi - i,
    {
        out.push(s[i]);
        i = i + 1;
        assert(out@ =~= s@.subrange(lo as int, i as int));
    }
    out
}

/// Parses the data rows of the baseline CSV.
///
/// A leading byte-order mark is dropped and the header line skipped. Each other line is
/// trimmed; it is a row when it is not blank, holds no `"` and splits at `,` into exactly
/// seven fields. The row's record carries its line number, its trimmed first field, the
/// category code of its seventh field (`4` when unknown) and the sovereign marker test of
/// the name.
pub fn parse_records(csv: &str) -> (r: Vec<CsvRecord>)
    ensures
        r@.map_values(|x: CsvRecord| x@) == csv_records(csv@),
{
    let cs = chars_of(csv);
    let s = cs.as_slice();
    let start: usize = if s.len() > 0 && s[0] == '\u{feff}' {
        1
    } else {
        0
    };
    let ghost body = without_bom(csv@);
    assert(body =~= s@.subrange(start as int, s@.len() as int));
    let segs = split_bounds(s, start, s.len(), '\n');
    let ghost all = split_on(body, '\n');
    let mut nlines = segs.len();
    proof {
        lemma_split_on_nonempty(body, '\n');
    }
    if segs[nlines - 1].0 == segs[nlines - 1].1 {
        nlines = nlines - 1;
    }
    let ghost ls = lines_of(body);
    assert(ls.len() == nlines);
    assert(forall|i: int| 0 <= i < nlines ==> #[trigger] ls[i] == pieces(s@, segs@)[i]);
    let mut out: Vec<CsvRecord> = Vec::new();
    let mut i: usize = 1;
    proof {
        assert(out@.map_values(|x: CsvRecord| x@) =~= records_upto(ls, 1));
    }
    while i < nlines
        invariant
            1 <= i <= nlines + 1,
            i <= nlines || nlines == 0,
            nlines <= segs@.len(),
            ls.len() == nlines,
            forall|k: int| 0 <= k < nlines ==> #[trigger] ls[k] == pieces(s@, segs@)[k],
            forall|k: int|
                0 <= k < segs@.len() ==> start <= (#[trigger] segs@[k]).0 <= segs@[k].1 <= s@.len(),
            out@.map_values(|x: CsvRecord| x@) == records_upto(ls, i as int),
        decreases nlines - i,
    {
        let (lo, hi) = segs[i];
        let ghost line = ls[i as int];
        assert(line == s@.subrange(lo as int, hi as int));
        let (a, b) = trim_bounds(s, lo, hi);
        let ghost t = trim(line);
        let ghost prev = out@.map_values(|x: CsvRecord| x@);
        if a < b && !has_quote(s, a, b) {
            let fields = split_bounds(s, a, b, ',');
            if fields.len() == 7 {
                let ghost f = split_on(t, ',');
                assert(f[0] == s@.subrange(fields@[0].0 as int, fields@[0].1 as int));
                assert(f[6] == s@.subrange(fields@[6].0 as int, fields@[6].1 as int));
                let (oa, ob) = trim_bounds(s, fields[0].0, fields[0].1);
                let (ca, cb) = trim_bounds(s, fields[6].0, fields[6].1);
                let category = match category_chars(s, ca, cb) {
                    Some(c) => c,
                    None => 4,
                };
                let chinese = chinese_chars(s, oa, ob);
                let org = copy_chars(s, oa, ob);
                let rec = CsvRecord { line: i as u32, org, category, chinese };
                out.push(rec);
                proof {
                    assert(record_of(line, i as int) == Some(rec@));
                    assert(out@.map_values(|x: CsvRecord| x@) =~= prev.push(rec@));
                }
            } else {
                assert(record_of(line, i as int) is None);
            }
        } else {
            assert(record_of(line, i as int) is None) by {
                if a < b {
                    assert(t.contains('"'));
                }
            }
        }
        i = i + 1;
    }
    proof {
        if nlines == 0 {
            assert(records_upto(ls, 0) =~= records_upto(ls, 1));
        }
    }
    out
}

/// Every parsed row has a category code in `0..5`, is flagged exactly when its name holds a
/// sovereign marker, and rows come in strictly increasing line order (for files of at most
/// 2^32 lines, where line numbers do not wrap).
pub proof fn lemma_records_well_formed(csv: Seq<char>)
    requires
        lines_of(without_bom(csv)).len() <= 0x1_0000_0000,
    ensures
        forall|k: int|
            0 <= k < csv_records(csv).len() ==> {
                &&& (#[trigger] csv_records(csv)[k]).category < 5
                &&& csv_records(csv)[k].chinese == is_chinese_name(csv_records(csv)[k].org)
                &&& csv_records(csv)[k].line >= 1
            },
        forall|a: int, b: int|
            0 <= a < b < csv_records(csv).len() ==> #[trigger] csv_records(csv)[a].line
                < #[trigger] csv_records(csv)[b].line,
{
    let ls = lines_of(without_bom(csv));
    lemma_records_upto(ls, ls.len() as int);
}

proof fn lemma_records_upto(ls: Seq<Seq<char>>, n: int)
    requires
        0 <= n <= ls.len(),
        ls.len() <= 0x1_0000_0000,
    ensures
        forall|k: int|
            0 <= k < records_upto(ls, n).len() ==> {
                &&& (#[trigger] records_upto(ls, n)[k]).category < 5
                &&& records_upto(ls, n)[k].chinese == is_chinese_name(records_upto(ls, n)[k].org)
                &&& 1 <= records_upto(ls, n)[k].line < n
            },
        forall|a: int, b: int|
            0 <= a < b < records_upto(ls, n).len() ==> #[trigger] records_upto(ls, n)[a].line
                < #[trigger] records_upto(ls, n)[b].line,
    decreases n,
{
    if n > 1 {
        lemma_records_upto(ls, n - 1);
        let prev = records_upto(ls, n - 1);
        match record_of(ls[n - 1], n - 1) {
            Some(r) => {
                assert(r.line == n - 1);
                assert(r.category < 5);
                assert(records_upto(ls, n) == prev.push(r));
                assert forall|k: int| 0 <= k < prev.len() implies #[trigger] prev.push(r)[k] == prev[k] by {}
            },
            None => {},
        }
    }
}

proof fn lemma_split_on_nonempty(s: Seq<char>, sep: char)
    ensures
        split_on(s, sep).len() >= 1,
    decreases s.len(),
{
    if s.len() > 0 {
        lemma_split_on_nonempty(s.drop_last(), sep);
    }
}

/// The number of bytes of the UTF-8 encoding of `c`.
pub open spec fn char_utf8_len(c: char) -> int {
    if (c as u32) < 0x80 {
        1
    } else if (c as u32) < 0x800 {
        2
    } else if (c as u32) < 0x10000 {
        3
    } else {
        4
    }
}

/// The number of bytes of the UTF-8 encoding of a string.
pub open spec fn utf8_len(s: Seq<char>) -> int
    decreases s.len(),
{
    if s.len() == 0 {
        0
    } else {
        utf8_len(s.drop_last()) + char_utf8_len(s.last())
    }
}

/// The UTF-8 byte length of `s`, kept to its low sixteen bits.
fn utf8_len_low16(s: &Vec<char>) -> (r: u16)
    ensures
        r == utf8_len(s@) % 0x10000,
{
    let mut n: u16 = 0;
    let mut i: usize = 0;
    while i < s.len()
        invariant
            i <= s.len(),
            n == utf8_len(s@.take(i as int)) % 0x10000,
        decreases s.len() - i,
    {
        let v = s[i] as u32;
        let w: u16 = if v < 0x80 {
            1
        } else if v < 0x800 {
            2
        } else if v < 0x10000 {
            3
        } else {
            4
        };
        proof {
            let t = s@.take(i + 1);
            assert(t.drop_last() =~= s@.take(i as int));
            assert(t.last() == s@[i as int]);
            assert(w == char_utf8_len(s@[i as int]));
            lemma_add_mod_noop(utf8_len(s@.take(i as int)), w as int, 0x10000);
        }
        n = n.wrapping_add(w);
        i = i + 1;
    }
    assert(s@.take(s@.len() as int) =~= s@);
    n
}

/// Builds the entity of a parsed row.
///
/// The entity's id is the row's line number and its category the row's. It has
/// `NUM_FACETS` facets of `FACET_ENDPOINTS` endpoints each, whose coordinates are the
/// given priors (`f32` bit patterns, facet by facet); every other coordinate is zero.
/// Its ownership type is `1` for a sovereign entity and `0` otherwise, and its name
/// length is the UTF-8 byte length of the organisation name, kept to sixteen bits.
pub fn entity_from_record(rec: &CsvRecord, priors: &[[u32; 4]; 4]) -> (r: Entity)
    requires
        (rec.line as int) < MAX_ENTITIES,
    ensures
        r.id == rec.line,
        r.entity_type == rec.category,
        r.num_slices == NUM_FACETS,
        r.flags == 0,
        r.valid_from == 0,
        r.valid_until == i64::MAX,
        forall|f: int, j: int|
            0 <= f < MAX_SLICES && 0 <= j < K_MAX ==> #[trigger] r.coordinates[f][j] == if f
                < NUM_FACETS && j < FACET_ENDPOINTS {
                priors[f][j]
            } else {
                0
            },
        forall|f: int|
            0 <= f < MAX_SLICES ==> #[trigger] r.slice_dims[f] == if f < NUM_FACETS {
                FACET_ENDPOINTS
            } else {
                0
            },
        forall|i: int|
            0 <= i < DELTA_RING_CAPACITY ==> #[trigger] r.delta_ring@[i] == (DeltaEvent {
                timestamp_us: 0,
                slice_mask: 0,
                endpoint_idx: 0,
                delta_bits: 0,
            }),
        r.ring_head == 0,
        r.ring_tail == 0,
        r.pending() =~= Seq::<DeltaEvent>::empty(),
        r.steady_state@ == (0u16, 0u16, if rec.chinese { 1u8 } else { 0u8 }),
        r.steady_state.padding_is_zero(),
        r.name_len == utf8_len(rec.org@) % 0x10000,
{
    let mut e = Entity::new(rec.line, rec.category, NUM_FACETS);
    let mut coords = [[0u32; 8]; 16];
    let mut dims = [0u8; 16];
    let mut f: usize = 0;
    while f < 4
        invariant
            f <= 4,
            forall|t: int, j: int|
                0 <= t < MAX_SLICES && 0 <= j < K_MAX ==> #[trigger] coords[t][j] == if t < f && j
                    < 4 {
                    priors[t][j]
                } else {
                    0
                },
            forall|t: int| 0 <= t < MAX_SLICES ==> #[trigger] dims[t] == if t < f {
                4u8
            } else {
                0u8
            },
        decreases 4 - f,
    {
        let mut row = [0u32; 8];
        let mut j: usize = 0;
        while j < 4
            invariant
                f < 4,
                j <= 4,
                forall|c: int| 0 <= c < K_MAX ==> #[trigger] row[c] == if c < j {
                    priors[f as int][c]
                } else {
                    0
                },
            decreases 4 - j,
        {
            row[j] = priors[f][j];
            j = j + 1;
        }
        coords[f] = row;
        dims[f] = 4;
        f = f + 1;
    }
    e.coordinates = coords;
    e.slice_dims = dims;
    e.steady_state = SteadyState::new(
        0,
        0,
        if rec.chinese {
            1
        } else {
            0
        },
    );
    e.name_len = utf8_len_low16(&rec.org);
    e
}

} // verus!
