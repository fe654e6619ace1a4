//! `definition.csv`: the table of province definitions.
//!
//! Each data line reads `id;r;g;b;type;coastal;terrain;continent[;extra...]`,
//! separated by semicolons; blank lines, `#` comments and lines before the first
//! data line that are not data (the column titles) are kept as header lines.
use vstd::prelude::*;
use std::collections::HashMap;
use std::collections::HashSet;
use vstd::std_specs::iter::IteratorSpec;
use crate::text::{
    has_char, is_trimmed, joined, lemma_decimal_parses, lemma_join_lines_concat, lemma_joined_push,
    lemma_lines_of_joined, lemma_lines_of_joined_stripped, lemma_lines_lack_break, lemma_split_push,
    lemma_trim_push_space, lemma_split_joined, lemma_trim_end_first, lemma_trimmed, strip_cr, trim_end,
    trim_start, is_white_space,
    push_char, push_str,
    all_ascii, ascii_lower_char, chars_of, decimal, join_lines, lines, lines_of, lowercase, parse_unsigned,
    parse_unsigned_chars, same_chars, split, split_chars, string_from, to_lowercase, trim,
    trim_chars, u32_to_decimal,
};
use crate::map::graph::{ProvinceColor, ProvinceId, rgb_key};

verus! {

broadcast use vstd::std_specs::hash::group_hash_axioms;

/// The kind of a province.
#[derive(Debug, Clone, PartialEq, Eq)]
pub enum ProvinceType {
    Land,
    Sea,
    Lake,
    /// Any other kind, as written (trimmed and lower-cased).
    Unknown(String),
}

/// The mathematical value of a [`ProvinceType`].
pub ghost enum ProvinceKind {
    Land,
    Sea,
    Lake,
    Unknown(Seq<char>),
}

impl View for ProvinceType {
    type V = ProvinceKind;

    open spec fn view(&self) -> ProvinceKind {
        match self {
            ProvinceType::Land => ProvinceKind::Land,
            ProvinceType::Sea => ProvinceKind::Sea,
            ProvinceType::Lake => ProvinceKind::Lake,
            ProvinceType::Unknown(s) => ProvinceKind::Unknown(s@),
        }
    }
}

pub open spec fn land_name() -> Seq<char> {
    seq!['l', 'a', 'n', 'd']
}

pub open spec fn sea_name() -> Seq<char> {
    seq!['s', 'e', 'a']
}

pub open spec fn lake_name() -> Seq<char> {
    seq!['l', 'a', 'k', 'e']
}

pub open spec fn true_name() -> Seq<char> {
    seq!['t', 'r', 'u', 'e']
}

pub open spec fn false_name() -> Seq<char> {
    seq!['f', 'a', 'l', 's', 'e']
}

/// The name of a province kind as `definition.csv` writes it.
pub open spec fn kind_name(k: ProvinceKind) -> Seq<char> {
    match k {
        ProvinceKind::Land => land_name(),
        ProvinceKind::Sea => sea_name(),
        ProvinceKind::Lake => lake_name(),
        ProvinceKind::Unknown(s) => s,
    }
}

/// The lower-cased form of `t`, as `str::to_lowercase` gives it: ASCII text is
/// lower-cased letter by letter.
pub open spec fn lower_text(t: Seq<char>) -> Seq<char> {
    if all_ascii(t) {
        t.map_values(|c: char| ascii_lower_char(c))
    } else {
        lowercase(t)
    }
}

/// The province kind that the text `s` names: its trimmed, lower-cased form
/// compared with `land`, `sea` and `lake`.
pub open spec fn kind_of_text(s: Seq<char>) -> ProvinceKind {
    let l = lower_text(trim(s));
    if l == land_name() {
        ProvinceKind::Land
    } else if l == sea_name() {
        ProvinceKind::Sea
    } else if l == lake_name() {
        ProvinceKind::Lake
    } else {
        ProvinceKind::Unknown(l)
    }
}

impl ProvinceType {
    /// The kind named by the characters `v`.
    fn from_chars(v: &[char]) -> (t: Self)
        ensures
            t@ == kind_of_text(v@),
    {
        let trimmed = trim_chars(v);
        let text = string_from(trimmed.as_slice());
        let lower = to_lowercase(text.as_str());
        let lv = chars_of(lower.as_str());
        let land = vec!['l', 'a', 'n', 'd'];
        let sea = vec!['s', 'e', 'a'];
        let lake = vec!['l', 'a', 'k', 'e'];
        assert(land@ =~= land_name());
        assert(sea@ =~= sea_name());
        assert(lake@ =~= lake_name());
        if same_chars(lv.as_slice(), land.as_slice()) {
            ProvinceType::Land
        } else if same_chars(lv.as_slice(), sea.as_slice()) {
            ProvinceType::Sea
        } else if same_chars(lv.as_slice(), lake.as_slice()) {
            ProvinceType::Lake
        } else {
            ProvinceType::Unknown(lower)
        }
    }

    /// The kind named by `s`: `land`, `sea` or `lake` in any case and with any
    /// surrounding white space, or else `Unknown` with the trimmed, lower-cased text.
    pub fn from_str(s: &str) -> (t: Self)
        ensures
            t@ == kind_of_text(s@),
    {
        let v = chars_of(s);
        Self::from_chars(v.as_slice())
    }

    /// The name of this kind as `definition.csv` writes it.
    pub fn as_str(&self) -> (s: &str)
        ensures
            s@ == kind_name(self@),
    {
        match self {
            ProvinceType::Land => {
                proof {
                    reveal_strlit("land");
                }
                assert("land"@ =~= land_name());
                "land"
            },
            ProvinceType::Sea => {
                proof {
                    reveal_strlit("sea");
                }
                assert("sea"@ =~= sea_name());
                "sea"
            },
            ProvinceType::Lake => {
                proof {
                    reveal_strlit("lake");
                }
                assert("lake"@ =~= lake_name());
                "lake"
            },
            ProvinceType::Unknown(s) => s.as_str(),
        }
    }

    /// A copy of this kind.
    pub fn duplicate(&self) -> (t: Self)
        ensures
            t@ == self@,
    {
        match self {
            ProvinceType::Land => ProvinceType::Land,
            ProvinceType::Sea => ProvinceType::Sea,
            ProvinceType::Lake => ProvinceType::Lake,
            ProvinceType::Unknown(s) => ProvinceType::Unknown(s.clone()),
        }
    }
}


/// One line of `definition.csv`.
#[derive(Debug, Clone)]
pub struct ProvinceDefinition {
    pub id: ProvinceId,
    pub color: ProvinceColor,
    pub province_type: ProvinceType,
    pub is_coastal: bool,
    pub terrain: String,
    pub continent: u32,
    /// The fields after the eighth, as written, so that writing keeps them.
    pub raw_extra_fields: Vec<String>,
}

impl ProvinceDefinition {
    /// A copy of this line.
    pub fn duplicate(&self) -> (d: Self)
        ensures
            d@ == self@,
    {
        let mut extra: Vec<String> = Vec::new();
        let n = self.raw_extra_fields.len();
        for i in 0..n
            invariant
                n == self.raw_extra_fields@.len(),
                strings_view(extra@) == strings_view(self.raw_extra_fields@).take(i as int),
        {
            let ghost before = strings_view(extra@);
            extra.push(self.raw_extra_fields[i].clone());
            assert(strings_view(extra@) =~= before.push(self.raw_extra_fields@[i as int]@));
            assert(strings_view(self.raw_extra_fields@).take(i + 1) =~= strings_view(self.raw_extra_fields@).take(
                i as int,
            ).push(self.raw_extra_fields@[i as int]@));
        }
        assert(strings_view(self.raw_extra_fields@).take(n as int) =~= strings_view(self.raw_extra_fields@));
        ProvinceDefinition {
            id: self.id,
            color: self.color,
            province_type: self.province_type.duplicate(),
            is_coastal: self.is_coastal,
            terrain: self.terrain.clone(),
            continent: self.continent,
            raw_extra_fields: extra,
        }
    }
}

/// The mathematical value of a [`ProvinceDefinition`].
pub ghost struct DefinitionLine {
    pub id: ProvinceId,
    pub color: ProvinceColor,
    pub province_type: ProvinceKind,
    pub is_coastal: bool,
    pub terrain: Seq<char>,
    pub continent: u32,
    pub raw_extra_fields: Seq<Seq<char>>,
}

/// The values of a sequence of strings.
pub open spec fn strings_view(v: Seq<String>) -> Seq<Seq<char>> {
    v.map_values(|s: String| s@)
}

impl View for ProvinceDefinition {
    type V = DefinitionLine;

    open spec fn view(&self) -> DefinitionLine {
        DefinitionLine {
            id: self.id,
            color: self.color,
            province_type: self.province_type@,
            is_coastal: self.is_coastal,
            terrain: self.terrain@,
            continent: self.continent,
            raw_extra_fields: strings_view(self.raw_extra_fields@),
        }
    }
}

/// Which colour channel of a data line could not be read.
#[derive(Debug, Clone, Copy, PartialEq, Eq)]
pub enum ColorChannel {
    Red,
    Green,
    Blue,
}

/// Why `definition.csv` could not be read.
#[derive(Debug, Clone, Copy, PartialEq, Eq)]
pub enum DefinitionError {
    /// A data line (numbered from 1) whose colour channel is not an integer 0–255.
    InvalidColor { line: usize, channel: ColorChannel },
}

/// What one line of `definition.csv` is.
pub ghost enum LineClass {
    /// Blank, a comment, too few fields, or no integer id: kept as a header line
    /// when no data line came before it, skipped otherwise.
    Header,
    /// A data line.
    Data(DefinitionLine),
    /// A data line whose colour channel does not parse.
    BadColor(ColorChannel),
}

/// The colour channel `text` as a byte, if it is one.
pub open spec fn channel_value(text: Seq<char>) -> Option<nat> {
    parse_unsigned(trim(text), 255)
}

/// The terrain of a data line without a terrain field.
pub open spec fn unknown_name() -> Seq<char> {
    seq!['u', 'n', 'k', 'n', 'o', 'w', 'n']
}

/// What the line `line` of `definition.csv` is. A data line with fewer than eight
/// fields takes the defaults for the missing ones: not coastal, terrain `unknown`,
/// continent 0, no extra fields.
pub open spec fn classify_line(line: Seq<char>) -> LineClass {
    let t = trim(line);
    let parts = split(line, ';');
    if t.len() == 0 || t[0] == '#' || parts.len() < 5 {
        LineClass::Header
    } else {
        match parse_unsigned(trim(parts[0]), u32::MAX as nat) {
            None => LineClass::Header,
            Some(id) => {
                match (channel_value(parts[1]), channel_value(parts[2]), channel_value(parts[3])) {
                    (None, _, _) => LineClass::BadColor(ColorChannel::Red),
                    (Some(_), None, _) => LineClass::BadColor(ColorChannel::Green),
                    (Some(_), Some(_), None) => LineClass::BadColor(ColorChannel::Blue),
                    (Some(r), Some(g), Some(b)) => LineClass::Data(
                        DefinitionLine {
                            id: id as u32,
                            color: ProvinceColor { r: r as u8, g: g as u8, b: b as u8 },
                            province_type: kind_of_text(parts[4]),
                            is_coastal: parts.len() > 5 && lower_text(trim(parts[5])) == true_name(),
                            terrain: if parts.len() > 6 {
                                trim(parts[6])
                            } else {
                                unknown_name()
                            },
                            continent: if parts.len() > 7 {
                                match parse_unsigned(trim(parts[7]), u32::MAX as nat) {
                                    Some(c) => c as u32,
                                    None => 0,
                                }
                            } else {
                                0
                            },
                            raw_extra_fields: if parts.len() >= 8 {
                                parts.skip(8)
                            } else {
                                Seq::empty()
                            },
                        },
                    ),
                }
            },
        }
    }
}

/// The mathematical value of a [`DefinitionTable`].
pub ghost struct Definitions {
    /// The data lines, in file order.
    pub entries: Seq<DefinitionLine>,
    /// Colour key `0xRRGGBB` to province id.
    pub colors: Map<u32, ProvinceId>,
    /// The lines before the first data line that are not data.
    pub header_lines: Seq<Seq<char>>,
}

/// Reading `definition.csv` line by line.
pub ghost enum Reading {
    /// All lines so far were read; `found_data` tells whether a data line came.
    Ongoing { table: Definitions, found_data: bool },
    /// The line numbered `line` (from 1) has a colour channel that does not parse.
    Failed { line: nat, channel: ColorChannel },
}

/// The state after reading the first `n` of `lines`.
pub open spec fn read_lines(lines: Seq<Seq<char>>, n: nat) -> Reading
    decreases n,
{
    if n == 0 {
        Reading::Ongoing {
            table: Definitions { entries: Seq::empty(), colors: Map::empty(), header_lines: Seq::empty() },
            found_data: false,
        }
    } else {
        let before = read_lines(lines, (n - 1) as nat);
        match before {
            Reading::Ongoing { table, found_data } => {
                let line = lines[n - 1];
                match classify_line(line) {
                    LineClass::Header => Reading::Ongoing {
                        table: if found_data {
                            table
                        } else {
                            Definitions { header_lines: table.header_lines.push(line), ..table }
                        },
                        found_data,
                    },
                    LineClass::Data(d) => Reading::Ongoing {
                        table: Definitions {
                            entries: table.entries.push(d),
                            colors: table.colors.insert(d.color.key(), d.id),
                            header_lines: table.header_lines,
                        },
                        found_data: true,
                    },
                    LineClass::BadColor(channel) => Reading::Failed { line: n, channel },
                }
            },
            _ => before,
        }
    }
}

/// What reading the whole text `content` of `definition.csv` gives.
pub open spec fn read_definitions(content: Seq<char>) -> Reading {
    read_lines(lines(content), lines(content).len())
}

/// A step of reading never goes back from a failure.
proof fn lemma_read_stops(lines: Seq<Seq<char>>, n: nat, m: nat)
    requires
        n <= m,
        !(read_lines(lines, n) is Ongoing),
    ensures
        read_lines(lines, m) == read_lines(lines, n),
    decreases m,
{
    if m > n {
        lemma_read_stops(lines, n, (m - 1) as nat);
    }
}

/// The table of province definitions read from `definition.csv`.
#[derive(Debug, Clone)]
pub struct DefinitionTable {
    /// The data lines, in file order.
    entries: Vec<ProvinceDefinition>,
    /// Colour key `0xRRGGBB` to province id.
    color_to_id: HashMap<u32, ProvinceId>,
    /// Comment and title lines before the first data line, kept for writing.
    header_lines: Vec<String>,
}

/// One line of `definition.csv`, read.
enum ReadLine {
    Header,
    Data(ProvinceDefinition),
    BadColor(ColorChannel),
}

impl ReadLine {
    spec fn is(self, c: LineClass) -> bool {
        match (self, c) {
            (ReadLine::Header, LineClass::Header) => true,
            (ReadLine::Data(d), LineClass::Data(e)) => d@ == e,
            (ReadLine::BadColor(a), LineClass::BadColor(b)) => a == b,
            _ => false,
        }
    }
}

/// Reads one line of `definition.csv`.
fn read_line(line: &[char]) -> (r: ReadLine)
    ensures
        r.is(classify_line(line@)),
{
    let t = trim_chars(line);
    let parts = split_chars(line, ';');
    let ghost ps = split(line@, ';');
    assert(parts@.len() == ps.len());
    if t.len() == 0 || t[0] == '#' || parts.len() < 5 {
        return ReadLine::Header;
    }
    assert(forall|i: int| 0 <= i < parts@.len() ==> #[trigger] parts@[i]@ == ps[i]);
    let f0 = trim_chars(parts[0].as_slice());
    let id = match parse_unsigned_chars(f0.as_slice(), u32::MAX) {
        None => {
            return ReadLine::Header;
        },
        Some(v) => v,
    };
    let f1 = trim_chars(parts[1].as_slice());
    let r = match parse_unsigned_chars(f1.as_slice(), 255) {
        None => {
            return ReadLine::BadColor(ColorChannel::Red);
        },
        Some(v) => v,
    };
    let f2 = trim_chars(parts[2].as_slice());
    let g = match parse_unsigned_chars(f2.as_slice(), 255) {
        None => {
            return ReadLine::BadColor(ColorChannel::Green);
        },
        Some(v) => v,
    };
    let f3 = trim_chars(parts[3].as_slice());
    let b = match parse_unsigned_chars(f3.as_slice(), 255) {
        None => {
            return ReadLine::BadColor(ColorChannel::Blue);
        },
        Some(v) => v,
    };
    let n = parts.len();
    let province_type = ProvinceType::from_chars(parts[4].as_slice());
    let is_coastal = if n > 5 {
        let f5 = trim_chars(parts[5].as_slice());
        let f5s = string_from(f5.as_slice());
        let coastal_text = to_lowercase(f5s.as_str());
        let coastal_chars = chars_of(coastal_text.as_str());
        let true_chars = vec!['t', 'r', 'u', 'e'];
        assert(true_chars@ =~= true_name());
        same_chars(coastal_chars.as_slice(), true_chars.as_slice())
    } else {
        false
    };
    let terrain = if n > 6 {
        let f6 = trim_chars(parts[6].as_slice());
        string_from(f6.as_slice())
    } else {
        let unknown = vec!['u', 'n', 'k', 'n', 'o', 'w', 'n'];
        assert(unknown@ =~= unknown_name());
        string_from(unknown.as_slice())
    };
    let continent = if n > 7 {
        let f7 = trim_chars(parts[7].as_slice());
        match parse_unsigned_chars(f7.as_slice(), u32::MAX) {
            Some(c) => c,
            None => 0,
        }
    } else {
        0
    };
    let mut raw_extra_fields: Vec<String> = Vec::new();
    if n >= 8 {
        let mut i: usize = 8;
        while i < n
            invariant
                8 <= i <= n,
                n == parts@.len(),
                n == ps.len(),
                forall|j: int| 0 <= j < parts@.len() ==> #[trigger] parts@[j]@ == ps[j],
                strings_view(raw_extra_fields@) == ps.subrange(8, i as int),
            decreases n - i,
        {
            let extra = string_from(parts[i].as_slice());
            let ghost before = strings_view(raw_extra_fields@);
            let ghost ev = extra@;
            raw_extra_fields.push(extra);
            assert(strings_view(raw_extra_fields@) =~= before.push(ev));
            assert(ps.subrange(8, i + 1) =~= ps.subrange(8, i as int).push(ps[i as int]));
            i = i + 1;
        }
        assert(ps.subrange(8, n as int) =~= ps.skip(8));
    } else {
        assert(strings_view(raw_extra_fields@) =~= Seq::<Seq<char>>::empty());
    }
    let def = ProvinceDefinition {
        id,
        color: ProvinceColor { r: r as u8, g: g as u8, b: b as u8 },
        province_type,
        is_coastal,
        terrain,
        continent,
        raw_extra_fields,
    };
    ReadLine::Data(def)
}

/// The largest id of `entries`, or 0 when there is none.
pub open spec fn max_id(entries: Seq<DefinitionLine>) -> nat
    decreases entries.len(),
{
    if entries.len() == 0 {
        0
    } else {
        let m = max_id(entries.drop_last());
        if entries.last().id > m {
            entries.last().id as nat
        } else {
            m
        }
    }
}

/// Whether `i` is the position of the first line of `entries` with id `id`.
pub open spec fn is_first_with_id(entries: Seq<DefinitionLine>, id: ProvinceId, i: int) -> bool {
    &&& 0 <= i < entries.len()
    &&& entries[i].id == id
    &&& forall|j: int| 0 <= j < i ==> entries[j].id != id
}

/// The position of the first line of `entries` with id `id`, if any.
pub open spec fn position_of(entries: Seq<DefinitionLine>, id: ProvinceId) -> Option<int> {
    if exists|i: int| is_first_with_id(entries, id, i) {
        Some(choose|i: int| is_first_with_id(entries, id, i))
    } else {
        None
    }
}

/// The first position is unique, and there is one exactly when some line has the id.
pub proof fn lemma_position_of(entries: Seq<DefinitionLine>, id: ProvinceId)
    ensures
        position_of(entries, id) is None <==> forall|j: int| 0 <= j < entries.len() ==> entries[j].id != id,
        forall|i: int| is_first_with_id(entries, id, i) ==> position_of(entries, id) == Some(i),
{
    if exists|j: int| 0 <= j < entries.len() && entries[j].id == id {
        let j = choose|j: int| 0 <= j < entries.len() && entries[j].id == id;
        lemma_first_exists(entries, id, j);
    }
    assert forall|i: int| is_first_with_id(entries, id, i) implies position_of(entries, id) == Some(i) by {
        let k = choose|k: int| is_first_with_id(entries, id, k);
        if k < i {
            assert(entries[k].id != id);
        }
        if i < k {
            assert(entries[i].id != id);
        }
    }
}

proof fn lemma_first_exists(entries: Seq<DefinitionLine>, id: ProvinceId, j: int)
    requires
        0 <= j < entries.len(),
        entries[j].id == id,
    ensures
        exists|i: int| is_first_with_id(entries, id, i),
    decreases j,
{
    if forall|k: int| 0 <= k < j ==> entries[k].id != id {
        assert(is_first_with_id(entries, id, j));
    } else {
        let k = choose|k: int| 0 <= k < j && entries[k].id != id ==> false;
        let k2 = choose|k: int| 0 <= k < j && entries[k].id == id;
        lemma_first_exists(entries, id, k2);
    }
}

/// The largest id is at least every id, and is one of them when there are lines.
proof fn lemma_max_id(entries: Seq<DefinitionLine>)
    ensures
        forall|j: int| 0 <= j < entries.len() ==> entries[j].id <= max_id(entries),
        max_id(entries) <= u32::MAX,
    decreases entries.len(),
{
    if entries.len() > 0 {
        lemma_max_id(entries.drop_last());
        assert forall|j: int| 0 <= j < entries.len() implies entries[j].id <= max_id(entries) by {
            if j < entries.len() - 1 {
                assert(entries.drop_last()[j] == entries[j]);
            }
        }
    }
}

/// Whether `key` is a colour that a new province may get: red at least 1.
pub open spec fn allocatable(key: u32) -> bool {
    0x01_0000 <= key < 0x100_0000
}

/// `after` is `before` with a new province of the given data, whose id is one more
/// than the largest id so far.
pub open spec fn province_added(
    before: Definitions,
    after: Definitions,
    color: ProvinceColor,
    kind: ProvinceKind,
    terrain: Seq<char>,
    continent: u32,
    id: ProvinceId,
) -> bool {
    &&& id == max_id(before.entries) + 1
    &&& after.entries == before.entries.push(
        DefinitionLine {
            id,
            color,
            province_type: kind,
            is_coastal: false,
            terrain,
            continent,
            raw_extra_fields: Seq::empty(),
        },
    )
    &&& after.colors == before.colors.insert(color.key(), id)
    &&& after.header_lines == before.header_lines
}

/// `after` is `before` without the first line with id `id`, and without the colour
/// key of that line; unchanged when no line has that id.
pub open spec fn province_removed(before: Definitions, after: Definitions, id: ProvinceId) -> bool {
    match position_of(before.entries, id) {
        Some(i) => {
            &&& after.entries == before.entries.remove(i)
            &&& after.colors == before.colors.remove(before.entries[i].color.key())
            &&& after.header_lines == before.header_lines
        },
        None => after == before,
    }
}

/// Removing the province that was just added gives back the lines as they were,
/// and the colour lookup too when the new colour was not in use.
pub proof fn law_add_then_remove(
    t0: Definitions,
    t1: Definitions,
    t2: Definitions,
    color: ProvinceColor,
    kind: ProvinceKind,
    terrain: Seq<char>,
    continent: u32,
    id: ProvinceId,
)
    requires
        province_added(t0, t1, color, kind, terrain, continent, id),
        province_removed(t1, t2, id),
    ensures
        t2.entries == t0.entries,
        t2.header_lines == t0.header_lines,
        !t0.colors.contains_key(color.key()) ==> t2.colors == t0.colors,
{
    lemma_max_id(t0.entries);
    let n = t0.entries.len() as int;
    assert(is_first_with_id(t1.entries, id, n));
    lemma_position_of(t1.entries, id);
    assert(t1.entries.remove(n) =~= t0.entries);
    if !t0.colors.contains_key(color.key()) {
        assert(t0.colors.insert(color.key(), id).remove(color.key()) =~= t0.colors);
    }
}

/// The province that adding makes is what its id then finds: a line after all the
/// earlier ones, which stay as they were, with exactly the colour, kind, terrain and
/// continent given, not coastal and with no extra fields; and the colour lookup sends
/// the colour to that id.
pub proof fn law_added_line(
    t0: Definitions,
    t1: Definitions,
    color: ProvinceColor,
    kind: ProvinceKind,
    terrain: Seq<char>,
    continent: u32,
    id: ProvinceId,
)
    requires
        province_added(t0, t1, color, kind, terrain, continent, id),
    ensures
        t1.entries.len() == t0.entries.len() + 1,
        forall|j: int| 0 <= j < t0.entries.len() ==> t1.entries[j] == t0.entries[j],
        position_of(t1.entries, id) matches Some(i) && {
            &&& i == t0.entries.len()
            &&& t1.entries[i].id == id
            &&& t1.entries[i].color == color
            &&& t1.entries[i].province_type == kind
            &&& !t1.entries[i].is_coastal
            &&& t1.entries[i].terrain == terrain
            &&& t1.entries[i].continent == continent
            &&& t1.entries[i].raw_extra_fields.len() == 0
        },
        t1.colors.contains_key(color.key()) && t1.colors[color.key()] == id,
        t1.header_lines == t0.header_lines,
{
    law_added_id_is_fresh(t0, t1, color, kind, terrain, continent, id);
}

/// A new province's id is used by no line before it.
pub proof fn law_added_id_is_fresh(
    t0: Definitions,
    t1: Definitions,
    color: ProvinceColor,
    kind: ProvinceKind,
    terrain: Seq<char>,
    continent: u32,
    id: ProvinceId,
)
    requires
        province_added(t0, t1, color, kind, terrain, continent, id),
    ensures
        forall|j: int| 0 <= j < t0.entries.len() ==> t0.entries[j].id < id,
        position_of(t1.entries, id) == Some(t0.entries.len() as int),
{
    lemma_max_id(t0.entries);
    assert(is_first_with_id(t1.entries, id, t0.entries.len() as int));
    lemma_position_of(t1.entries, id);
}

/// The extra fields of a line as written after its eighth field: each one after a `;`.
pub open spec fn extras_text(extras: Seq<Seq<char>>) -> Seq<char>
    decreases extras.len(),
{
    if extras.len() == 0 {
        Seq::empty()
    } else {
        extras_text(extras.drop_last()).push(';') + extras.last()
    }
}

/// A data line as `definition.csv` writes it (without its line break).
pub open spec fn line_text(d: DefinitionLine) -> Seq<char> {
    decimal(d.id as nat).push(';') + decimal(d.color.r as nat).push(';') + decimal(d.color.g as nat).push(';')
        + decimal(d.color.b as nat).push(';') + kind_name(d.province_type).push(';') + (if d.is_coastal {
        true_name()
    } else {
        false_name()
    }).push(';') + d.terrain.push(';') + decimal(d.continent as nat) + extras_text(d.raw_extra_fields)
}

/// The lines of `definition.csv` for the entries.
pub open spec fn entry_texts(es: Seq<DefinitionLine>) -> Seq<Seq<char>> {
    es.map_values(|d: DefinitionLine| line_text(d))
}

/// The text of `definition.csv` for a table: the header lines, then one line per entry.
pub open spec fn definitions_text(t: Definitions) -> Seq<char> {
    join_lines(t.header_lines) + join_lines(entry_texts(t.entries))
}

impl DefinitionTable {
    /// The data lines, as stored.
    pub closed spec fn lines(&self) -> Seq<ProvinceDefinition> {
        self.entries@
    }

    /// The value of this table.
    pub closed spec fn spec(&self) -> Definitions {
        Definitions {
            entries: self.entries@.map_values(|e: ProvinceDefinition| e@),
            colors: self.color_to_id@,
            header_lines: strings_view(self.header_lines@),
        }
    }

    /// A copy of this table.
    pub fn duplicate(&self) -> (t: Self)
        ensures
            t.spec() == self.spec(),
    {
        let mut entries: Vec<ProvinceDefinition> = Vec::new();
        let n = self.entries.len();
        for i in 0..n
            invariant
                n == self.entries@.len(),
                entries@.map_values(|e: ProvinceDefinition| e@) == self.spec().entries.take(i as int),
        {
            let ghost before = entries@.map_values(|e: ProvinceDefinition| e@);
            let d = self.entries[i].duplicate();
            let ghost dv = d@;
            entries.push(d);
            assert(entries@.map_values(|e: ProvinceDefinition| e@) =~= before.push(dv));
            assert(self.spec().entries.take(i + 1) =~= self.spec().entries.take(i as int).push(
                self.spec().entries[i as int],
            ));
        }
        let mut header_lines: Vec<String> = Vec::new();
        let m = self.header_lines.len();
        for i in 0..m
            invariant
                m == self.header_lines@.len(),
                strings_view(header_lines@) == strings_view(self.header_lines@).take(i as int),
        {
            let ghost before = strings_view(header_lines@);
            header_lines.push(self.header_lines[i].clone());
            assert(strings_view(header_lines@) =~= before.push(self.header_lines@[i as int]@));
            assert(strings_view(self.header_lines@).take(i + 1) =~= strings_view(self.header_lines@).take(
                i as int,
            ).push(self.header_lines@[i as int]@));
        }
        let t = DefinitionTable { entries, color_to_id: self.color_to_id.clone(), header_lines };
        assert(t.spec().entries =~= self.spec().entries);
        assert(t.spec().header_lines =~= self.spec().header_lines);
        t
    }

    /// An empty table.
    pub fn new() -> (t: Self)
        ensures
            t.spec().entries.len() == 0,
            t.spec().colors == Map::<u32, ProvinceId>::empty(),
            t.spec().header_lines.len() == 0,
    {
        let t = DefinitionTable { entries: Vec::new(), color_to_id: HashMap::new(), header_lines: Vec::new() };
        assert(t.spec().entries =~= Seq::empty());
        assert(t.spec().header_lines =~= Seq::empty());
        t
    }

    /// Reads the text of `definition.csv`.
    /// Fails on the first data line whose colour channel is not an integer 0–255.
    pub fn parse(content: &str) -> (r: Result<Self, DefinitionError>)
        ensures
            match read_definitions(content@) {
                Reading::Ongoing { table, .. } => r matches Ok(t) && t.spec() == table,
                Reading::Failed { line, channel } => r == Err::<Self, DefinitionError>(
                    DefinitionError::InvalidColor { line: line as usize, channel },
                ),
            },
    {
        let chars = chars_of(content);
        let all_lines = lines_of(chars.as_slice());
        let ghost ls = lines(content@);
        assert(all_lines@.len() == ls.len());
        assert(forall|i: int| 0 <= i < all_lines@.len() ==> #[trigger] all_lines@[i]@ == ls[i]);
        let mut table = DefinitionTable::new();
        let mut found_data = false;
        let count = all_lines.len();
        let mut k: usize = 0;
        assert(table.spec().entries =~= Seq::empty());
        assert(table.spec().header_lines =~= Seq::empty());
        assert(table.spec().colors =~= Map::empty());
        while k < count
            invariant
                ls == lines(content@),
                count == ls.len(),
                count == all_lines@.len(),
                k <= count,
                forall|i: int| 0 <= i < all_lines@.len() ==> #[trigger] all_lines@[i]@ == ls[i],
                read_lines(ls, k as nat) == (Reading::Ongoing { table: table.spec(), found_data }),
            decreases count - k,
        {
            let ghost before = table.spec();
            let read = read_line(all_lines[k].as_slice());
            assert(all_lines@[k as int]@ == ls[k as int]);
            match read {
                ReadLine::Header => {
                    if !found_data {
                        let text = string_from(all_lines[k].as_slice());
                        let ghost tv = text@;
                        table.header_lines.push(text);
                        assert(table.spec().header_lines =~= before.header_lines.push(tv));
                        assert(table.spec() =~= Definitions { header_lines: before.header_lines.push(tv), ..before });
                    }
                },
                ReadLine::Data(def) => {
                    let key = def.color.to_key();
                    let id = def.id;
                    let ghost dv = def@;
                    table.color_to_id.insert(key, id);
                    table.entries.push(def);
                    found_data = true;
                    assert(table.spec().entries =~= before.entries.push(dv));
                },
                ReadLine::BadColor(channel) => {
                    assert(read_lines(ls, (k + 1) as nat) == Reading::Failed { line: (k + 1) as nat, channel });
                    proof {
                        lemma_read_stops(ls, (k + 1) as nat, count as nat);
                    }
                    return Err(DefinitionError::InvalidColor { line: k + 1, channel });
                },
            }
            k = k + 1;
        }
        Ok(table)
    }

    /// The colour-key-to-id lookup, for building the province graph.
    pub fn color_id_map(&self) -> (m: &HashMap<u32, ProvinceId>)
        ensures
            m@ == self.spec().colors,
    {
        &self.color_to_id
    }

    /// The colour-key-to-id lookup.
    pub fn get_color_map(&self) -> (m: &HashMap<u32, ProvinceId>)
        ensures
            m@ == self.spec().colors,
    {
        &self.color_to_id
    }

    /// All data lines, in file order.
    pub fn entries(&self) -> (e: &[ProvinceDefinition])
        ensures
            e@.map_values(|d: ProvinceDefinition| d@) == self.spec().entries,
    {
        self.entries.as_slice()
    }

    /// The position of the first line with id `id`.
    fn find(&self, id: ProvinceId) -> (r: Option<usize>)
        ensures
            match r {
                Some(i) => is_first_with_id(self.spec().entries, id, i as int),
                None => forall|j: int| 0 <= j < self.spec().entries.len() ==> self.spec().entries[j].id != id,
            },
    {
        let n = self.entries.len();
        for i in 0..n
            invariant
                n == self.entries@.len(),
                forall|j: int| 0 <= j < i ==> self.spec().entries[j].id != id,
        {
            if self.entries[i].id == id {
                return Some(i);
            }
        }
        None
    }

    /// The first line with id `id`, if any.
    pub fn get(&self, id: ProvinceId) -> (r: Option<&ProvinceDefinition>)
        ensures
            match position_of(self.spec().entries, id) {
                Some(i) => r matches Some(d) && d@ == self.spec().entries[i],
                None => r is None,
            },
    {
        proof {
            lemma_position_of(self.spec().entries, id);
        }
        match self.find(id) {
            Some(i) => Some(&self.entries[i]),
            None => None,
        }
    }

    /// The first line with id `id`, to change in place.
    pub fn get_mut(&mut self, id: ProvinceId) -> (r: Option<&mut ProvinceDefinition>)
        ensures
            match position_of(old(self).spec().entries, id) {
                Some(i) => r matches Some(d) && {
                    &&& d@ == old(self).spec().entries[i]
                    &&& *d == old(self).lines()[i]
                    &&& final(self).lines() == old(self).lines().update(i, *final(d))
                    &&& final(self).spec().entries == old(self).spec().entries.update(i, final(d)@)
                    &&& final(self).spec().colors == old(self).spec().colors
                    &&& final(self).spec().header_lines == old(self).spec().header_lines
                },
                None => r is None && final(self).spec() == old(self).spec(),
            },
    {
        proof {
            lemma_position_of(self.spec().entries, id);
        }
        match self.find(id) {
            Some(i) => Some(&mut self.entries[i]),
            None => None,
        }
    }

    /// The colour keys in use.
    pub fn used_colors(&self) -> (s: HashSet<u32>)
        ensures
            s@ == self.spec().colors.dom(),
    {
        let mut s: HashSet<u32> = HashSet::new();
        for k in it: self.color_to_id.keys()
            invariant
                it.seq() == vstd::std_specs::hash::spec_keys_iter(&self.color_to_id).remaining(),
                forall|x: u32| s@.contains(x) <==> (exists|j: int| 0 <= j < it.index() && *it.seq()[j] == x),
        {
            let ghost before = s@;
            s.insert(*k);
            assert forall|x: u32| s@.contains(x) implies (exists|j: int| 0 <= j < it.index() + 1 && *it.seq()[j] == x) by {
                if x != *k {
                    let j = choose|j: int| 0 <= j < it.index() && *it.seq()[j] == x;
                }
            }
        }
        let ghost ks = vstd::std_specs::hash::spec_keys_iter(&self.color_to_id).remaining();
        assert(ks.unref().to_set() == self.color_to_id@.dom());
        assert forall|x: u32| self.color_to_id@.dom().contains(x) <==> s@.contains(x) by {
            if self.color_to_id@.dom().contains(x) {
                assert(ks.unref().to_set().contains(x));
                let j = choose|j: int| 0 <= j < ks.unref().len() && ks.unref()[j] == x;
                assert(*ks[j] == x);
            }
            if s@.contains(x) {
                let j = choose|j: int| 0 <= j < ks.len() && *ks[j] == x;
                assert(ks.unref()[j] == x);
                assert(ks.unref().to_set().contains(x));
            }
        }
        assert(s@ =~= self.color_to_id@.dom());
        s
    }

    /// An unused colour for a new province: the first colour key, from `0x010000` up
    /// (red at least 1; black is kept away from), that no line uses.
    pub fn allocate_unused_color(&self) -> (r: Option<ProvinceColor>)
        ensures
            match r {
                Some(c) => {
                    &&& allocatable(c.key())
                    &&& !self.spec().colors.contains_key(c.key())
                    &&& forall|k: u32| allocatable(k) && k < c.key() ==> self.spec().colors.contains_key(k)
                },
                None => forall|k: u32| allocatable(k) ==> self.spec().colors.contains_key(k),
            },
    {
        let used = self.used_colors();
        let mut r: u32 = 1;
        while r < 256
            invariant
                1 <= r <= 256,
                used@ == self.spec().colors.dom(),
                forall|k: u32| 0x01_0000 <= k < r * 65536 ==> used@.contains(k),
            decreases 256 - r,
        {
            let mut g: u32 = 0;
            while g < 256
                invariant
                    1 <= r < 256,
                    g <= 256,
                    used@ == self.spec().colors.dom(),
                    forall|k: u32| 0x01_0000 <= k < r * 65536 + g * 256 ==> used@.contains(k),
                decreases 256 - g,
            {
                let mut b: u32 = 0;
                while b < 256
                    invariant
                        1 <= r < 256,
                        g < 256,
                        b <= 256,
                        used@ == self.spec().colors.dom(),
                        forall|k: u32| 0x01_0000 <= k < r * 65536 + g * 256 + b ==> used@.contains(k),
                    decreases 256 - b,
                {
                    let c = ProvinceColor::new(r as u8, g as u8, b as u8);
                    let key = c.to_key();
                    if !used.contains(&key) {
                        return Some(c);
                    }
                    b = b + 1;
                }
                g = g + 1;
            }
            r = r + 1;
        }
        None
    }

    /// Whether one more province can get an id (the largest id is below `u32::MAX`).
    pub fn can_add_province(&self) -> (r: bool)
        ensures
            r == (max_id(self.spec().entries) < u32::MAX),
    {
        let n = self.entries.len();
        let mut m: u32 = 0;
        for i in 0..n
            invariant
                n == self.entries@.len(),
                m == max_id(self.spec().entries.take(i as int)),
        {
            assert(self.spec().entries.take(i + 1).drop_last() =~= self.spec().entries.take(i as int));
            if self.entries[i].id > m {
                m = self.entries[i].id;
            }
        }
        assert(self.spec().entries.take(n as int) =~= self.spec().entries);
        m < u32::MAX
    }

    /// Adds a province with the given data and an id one more than the largest so far
    /// (1 for an empty table); returns the id.
    pub fn add_province(
        &mut self,
        color: ProvinceColor,
        province_type: ProvinceType,
        terrain: &str,
        continent: u32,
    ) -> (id: ProvinceId)
        requires
            max_id(old(self).spec().entries) < u32::MAX,
        ensures
            province_added(old(self).spec(), final(self).spec(), color, province_type@, terrain@, continent, id),
    {
        let n = self.entries.len();
        let mut m: u32 = 0;
        for i in 0..n
            invariant
                n == self.entries@.len(),
                m == max_id(self.spec().entries.take(i as int)),
        {
            assert(self.spec().entries.take(i + 1).drop_last() =~= self.spec().entries.take(i as int));
            if self.entries[i].id > m {
                m = self.entries[i].id;
            }
        }
        assert(self.spec().entries.take(n as int) =~= self.spec().entries);
        let id = m + 1;
        let def = ProvinceDefinition {
            id,
            color,
            province_type,
            is_coastal: false,
            terrain: terrain.to_owned(),
            continent,
            raw_extra_fields: Vec::new(),
        };
        let ghost before = self.spec();
        let ghost dv = def@;
        assert(dv.raw_extra_fields =~= Seq::empty());
        self.color_to_id.insert(color.to_key(), id);
        self.entries.push(def);
        assert(self.spec().entries =~= before.entries.push(dv));
        id
    }

    /// Removes the first line with id `id` and the colour key of that line.
    pub fn remove(&mut self, id: ProvinceId)
        ensures
            province_removed(old(self).spec(), final(self).spec(), id),
    {
        proof {
            lemma_position_of(self.spec().entries, id);
        }
        match self.find(id) {
            Some(i) => {
                let ghost before = self.spec();
                let entry = self.entries.remove(i);
                let key = entry.color.to_key();
                self.color_to_id.remove(&key);
                assert(self.spec().entries =~= before.entries.remove(i as int));
            },
            None => {},
        }
    }

    /// The text of `definition.csv` for this table: the header lines as they were read,
    /// then each entry as `id;r;g;b;type;coastal;terrain;continent` followed by its extra
    /// fields, every line ending in a line break.
    pub fn to_csv(&self) -> (text: String)
        ensures
            text@ == definitions_text(self.spec()),
    {
        let mut out = String::new();
        let nh = self.header_lines.len();
        for i in 0..nh
            invariant
                nh == self.header_lines@.len(),
                out@ == join_lines(self.spec().header_lines.take(i as int)),
        {
            let ghost before = out@;
            push_str(&mut out, self.header_lines[i].as_str());
            push_char(&mut out, '\n');
            assert(self.spec().header_lines.take(i + 1).drop_last() =~= self.spec().header_lines.take(i as int));
            assert(out@ =~= before + self.spec().header_lines.take(i + 1).last().push('\n'));
        }
        assert(self.spec().header_lines.take(nh as int) =~= self.spec().header_lines);
        let ghost head = out@;
        let ghost texts = entry_texts(self.spec().entries);
        let ne = self.entries.len();
        for i in 0..ne
            invariant
                ne == self.entries@.len(),
                texts == entry_texts(self.spec().entries),
                head == join_lines(self.spec().header_lines),
                out@ == head + join_lines(texts.take(i as int)),
        {
            let ghost before = out@;
            let line = Self::entry_text(&self.entries[i]);
            push_str(&mut out, line.as_str());
            push_char(&mut out, '\n');
            assert(texts.take(i + 1).drop_last() =~= texts.take(i as int));
            assert(out@ =~= head + join_lines(texts.take(i + 1)));
        }
        assert(texts.take(ne as int) =~= texts);
        out
    }

    /// One entry as `definition.csv` writes it.
    fn entry_text(d: &ProvinceDefinition) -> (text: String)
        ensures
            text@ == line_text(d@),
    {
        let mut line = u32_to_decimal(d.id);
        push_char(&mut line, ';');
        let r = u32_to_decimal(d.color.r as u32);
        push_str(&mut line, r.as_str());
        push_char(&mut line, ';');
        let g = u32_to_decimal(d.color.g as u32);
        push_str(&mut line, g.as_str());
        push_char(&mut line, ';');
        let b = u32_to_decimal(d.color.b as u32);
        push_str(&mut line, b.as_str());
        push_char(&mut line, ';');
        push_str(&mut line, d.province_type.as_str());
        push_char(&mut line, ';');
        if d.is_coastal {
            proof {
                reveal_strlit("true");
            }
            assert("true"@ =~= true_name());
            push_str(&mut line, "true");
        } else {
            proof {
                reveal_strlit("false");
            }
            assert("false"@ =~= false_name());
            push_str(&mut line, "false");
        }
        push_char(&mut line, ';');
        push_str(&mut line, d.terrain.as_str());
        push_char(&mut line, ';');
        let c = u32_to_decimal(d.continent);
        push_str(&mut line, c.as_str());
        let ghost fixed = line@;
        let ghost extras = strings_view(d.raw_extra_fields@);
        let n = d.raw_extra_fields.len();
        for i in 0..n
            invariant
                n == d.raw_extra_fields@.len(),
                extras == strings_view(d.raw_extra_fields@),
                line@ == fixed + extras_text(extras.take(i as int)),
        {
            push_char(&mut line, ';');
            push_str(&mut line, d.raw_extra_fields[i].as_str());
            assert(extras.take(i + 1).drop_last() =~= extras.take(i as int));
            assert(line@ =~= fixed + extras_text(extras.take(i + 1)));
        }
        assert(extras.take(n as int) =~= extras);
        assert(line@ =~= line_text(d@));
        line
    }

}


/// Whether `s` has none of the characters that end a field of `definition.csv`:
/// the separator and the line breaks.
pub open spec fn plain_field(s: Seq<char>) -> bool {
    !has_char(s, ';') && !has_char(s, '\n') && !has_char(s, '\r')
}

/// Whether the kind `k` is written so that reading the name gives `k` back: a kind
/// of its own is plain, trimmed, its own lower-case form and none of the three names.
pub open spec fn kind_writable(k: ProvinceKind) -> bool {
    match k {
        ProvinceKind::Unknown(s) => {
            &&& plain_field(s)
            &&& is_trimmed(s)
            &&& lower_text(s) == s
            &&& s != land_name()
            &&& s != sea_name()
            &&& s != lake_name()
        },
        _ => true,
    }
}

/// Whether the line `d` is written so that reading it gives `d` back.
pub open spec fn line_writable(d: DefinitionLine) -> bool {
    &&& kind_writable(d.province_type)
    &&& plain_field(d.terrain)
    &&& is_trimmed(d.terrain)
    &&& forall|i: int| 0 <= i < d.raw_extra_fields.len() ==> plain_field(#[trigger] d.raw_extra_fields[i])
}

/// Whether the header line `h` is written and read back as a header line.
pub open spec fn header_writable(h: Seq<char>) -> bool {
    &&& !has_char(h, '\n')
    &&& strip_cr(h) == h
    &&& classify_line(h) is Header
}

/// Whether writing the table `t` and reading the text gives its lines back.
pub open spec fn table_writable(t: Definitions) -> bool {
    &&& forall|i: int| 0 <= i < t.header_lines.len() ==> header_writable(#[trigger] t.header_lines[i])
    &&& forall|i: int| 0 <= i < t.entries.len() ==> line_writable(#[trigger] t.entries[i])
}

/// The colour lookup that reading the lines `entries` builds: each line's colour key
/// to its id, a later line winning.
pub open spec fn colors_of(entries: Seq<DefinitionLine>) -> Map<u32, ProvinceId>
    decreases entries.len(),
{
    if entries.len() == 0 {
        Map::empty()
    } else {
        colors_of(entries.drop_last()).insert(entries.last().color.key(), entries.last().id)
    }
}

/// The fields of line `d` as `definition.csv` writes them.
pub open spec fn line_fields(d: DefinitionLine) -> Seq<Seq<char>> {
    seq![
        decimal(d.id as nat),
        decimal(d.color.r as nat),
        decimal(d.color.g as nat),
        decimal(d.color.b as nat),
        kind_name(d.province_type),
        if d.is_coastal {
            true_name()
        } else {
            false_name()
        },
        d.terrain,
        decimal(d.continent as nat),
    ] + d.raw_extra_fields
}

/// Joining the eight fixed fields and then the extra fields.
proof fn lemma_joined_extras(f: Seq<Seq<char>>, ex: Seq<Seq<char>>)
    requires
        f.len() >= 1,
    ensures
        joined(f + ex, ';') == joined(f, ';') + extras_text(ex),
    decreases ex.len(),
{
    if ex.len() == 0 {
        assert(f + ex =~= f);
        assert(joined(f, ';') + Seq::<char>::empty() =~= joined(f, ';'));
    } else {
        lemma_joined_extras(f, ex.drop_last());
        assert(f + ex =~= (f + ex.drop_last()).push(ex.last()));
        lemma_joined_push(f + ex.drop_last(), ex.last(), ';');
        assert((joined(f, ';') + extras_text(ex.drop_last())).push(';') + ex.last() =~= joined(f, ';') + (extras_text(
            ex.drop_last(),
        ).push(';') + ex.last()));
    }
}

/// A line's text is its fields joined with `;`.
proof fn lemma_line_text_joined(d: DefinitionLine)
    ensures
        line_text(d) == joined(line_fields(d), ';'),
{
    let a0 = decimal(d.id as nat);
    let a1 = decimal(d.color.r as nat);
    let a2 = decimal(d.color.g as nat);
    let a3 = decimal(d.color.b as nat);
    let a4 = kind_name(d.province_type);
    let a5 = if d.is_coastal {
        true_name()
    } else {
        false_name()
    };
    let a6 = d.terrain;
    let a7 = decimal(d.continent as nat);
    let f1 = seq![a0];
    assert(joined(f1, ';') == a0);
    lemma_joined_push(f1, a1, ';');
    let f2 = f1.push(a1);
    lemma_joined_push(f2, a2, ';');
    let f3 = f2.push(a2);
    lemma_joined_push(f3, a3, ';');
    let f4 = f3.push(a3);
    lemma_joined_push(f4, a4, ';');
    let f5 = f4.push(a4);
    lemma_joined_push(f5, a5, ';');
    let f6 = f5.push(a5);
    lemma_joined_push(f6, a6, ';');
    let f7 = f6.push(a6);
    lemma_joined_push(f7, a7, ';');
    let f8 = f7.push(a7);
    assert(f8 =~= line_fields(d).take(8));
    assert(line_fields(d) =~= f8 + d.raw_extra_fields);
    lemma_joined_extras(f8, d.raw_extra_fields);
    let p8 = ((((((a0.push(';') + a1).push(';') + a2).push(';') + a3).push(';') + a4).push(';') + a5).push(';')
        + a6).push(';') + a7;
    assert(joined(f8, ';') == p8);
    assert(line_text(d) =~= p8 + extras_text(d.raw_extra_fields));
}

/// Pieces without a character, joined with another, are without it.
proof fn lemma_joined_lacks(ps: Seq<Seq<char>>, sep: char, c: char)
    requires
        c != sep,
        forall|i: int| 0 <= i < ps.len() ==> !has_char(#[trigger] ps[i], c),
    ensures
        !has_char(joined(ps, sep), c),
    decreases ps.len(),
{
    if ps.len() == 1 {
        assert(!has_char(ps[0], c));
    } else if ps.len() > 1 {
        let rest = ps.drop_first();
        assert forall|i: int| 0 <= i < rest.len() implies !has_char(#[trigger] rest[i], c) by {
            assert(rest[i] == ps[i + 1]);
        }
        lemma_joined_lacks(rest, sep, c);
        assert(!has_char(ps[0], c));
        let j = joined(ps, sep);
        if has_char(j, c) {
            let k = choose|k: int| 0 <= k < j.len() && j[k] == c;
            if k < ps[0].len() {
                assert(ps[0][k] == c);
            } else if k > ps[0].len() {
                assert(joined(rest, sep)[k - ps[0].len() - 1] == c);
            }
        }
    }
}

/// The names of the kinds and of the truth values read back as themselves.
proof fn lemma_names()
    ensures
        plain_field(land_name()),
        plain_field(sea_name()),
        plain_field(lake_name()),
        plain_field(true_name()),
        plain_field(false_name()),
        trim(land_name()) == land_name(),
        trim(sea_name()) == sea_name(),
        trim(lake_name()) == lake_name(),
        trim(true_name()) == true_name(),
        trim(false_name()) == false_name(),
        lower_text(land_name()) == land_name(),
        lower_text(sea_name()) == sea_name(),
        lower_text(lake_name()) == lake_name(),
        lower_text(true_name()) == true_name(),
        lower_text(false_name()) == false_name(),
        land_name() != sea_name(),
        land_name() != lake_name(),
        sea_name() != lake_name(),
        false_name() != true_name(),
{
    lemma_trimmed(land_name());
    lemma_trimmed(sea_name());
    lemma_trimmed(lake_name());
    lemma_trimmed(true_name());
    lemma_trimmed(false_name());
    assert(lower_text(land_name()) =~= land_name());
    assert(lower_text(sea_name()) =~= sea_name());
    assert(lower_text(lake_name()) =~= lake_name());
    assert(lower_text(true_name()) =~= true_name());
    assert(lower_text(false_name()) =~= false_name());
    assert(land_name()[2] != lake_name()[2]);
    assert(false_name().len() != true_name().len());
    assert(land_name().len() != sea_name().len());
    assert(sea_name().len() != lake_name().len());
}

/// Reading a kind's name gives the kind back.
proof fn lemma_kind_roundtrip(k: ProvinceKind)
    requires
        kind_writable(k),
    ensures
        kind_of_text(kind_name(k)) == k,
        plain_field(kind_name(k)),
{
    lemma_names();
    match k {
        ProvinceKind::Unknown(s) => {
            lemma_trimmed(s);
        },
        _ => {},
    }
}

/// Reading the text of a writable line gives the line back.
proof fn lemma_classify_line_text(d: DefinitionLine)
    requires
        line_writable(d),
    ensures
        classify_line(line_text(d)) == LineClass::Data(d),
        !has_char(line_text(d), '\n'),
        !has_char(line_text(d), '\r'),
{
    let fs = line_fields(d);
    let line = line_text(d);
    lemma_line_text_joined(d);
    lemma_names();
    lemma_kind_roundtrip(d.province_type);
    lemma_decimal_parses(d.id as nat, u32::MAX as nat);
    lemma_decimal_parses(d.color.r as nat, 255);
    lemma_decimal_parses(d.color.g as nat, 255);
    lemma_decimal_parses(d.color.b as nat, 255);
    lemma_decimal_parses(d.continent as nat, u32::MAX as nat);
    assert forall|i: int| 0 <= i < fs.len() implies plain_field(#[trigger] fs[i]) by {
        if i >= 8 {
            assert(fs[i] == d.raw_extra_fields[i - 8]);
        }
    }
    lemma_split_joined(fs, ';');
    lemma_joined_lacks(fs, ';', '\n');
    lemma_joined_lacks(fs, ';', '\r');
    let parts = split(line, ';');
    assert(parts == fs);
    assert(line[0] == fs[0][0]);
    assert(trim_start(line) == line);
    lemma_trim_end_first(line);
    lemma_trimmed(d.terrain);
    assert(parts.skip(8) =~= d.raw_extra_fields);
    assert(d.is_coastal == (lower_text(trim(parts[5])) == true_name()));
}

/// Reading the header lines and then the lines of the entries, step by step.
proof fn lemma_read_written(hs: Seq<Seq<char>>, es: Seq<DefinitionLine>, n: nat)
    requires
        forall|i: int| 0 <= i < hs.len() ==> #[trigger] classify_line(hs[i]) is Header,
        forall|i: int| 0 <= i < es.len() ==> line_writable(#[trigger] es[i]),
        n <= hs.len() + es.len(),
    ensures
        read_lines(hs + entry_texts(es), n) == if n <= hs.len() {
            Reading::Ongoing {
                table: Definitions { entries: Seq::empty(), colors: Map::empty(), header_lines: hs.take(n as int) },
                found_data: false,
            }
        } else {
            Reading::Ongoing {
                table: Definitions {
                    entries: es.take(n - hs.len()),
                    colors: colors_of(es.take(n - hs.len())),
                    header_lines: hs,
                },
                found_data: true,
            }
        },
    decreases n,
{
    let ls = hs + entry_texts(es);
    if n == 0 {
        assert(hs.take(0) =~= Seq::<Seq<char>>::empty());
    } else {
        lemma_read_written(hs, es, (n - 1) as nat);
        let i = n - 1;
        if n <= hs.len() {
            assert(ls[i] == hs[i]);
            assert(classify_line(hs[i]) is Header);
            assert(hs.take(n as int) =~= hs.take(i).push(hs[i]));
        } else {
            let k = n - hs.len() - 1;
            assert(ls[i] == line_text(es[k]));
            lemma_classify_line_text(es[k]);
            assert(es.take(k + 1) =~= es.take(k).push(es[k]));
            assert(es.take(k + 1).drop_last() =~= es.take(k));
            if k == 0 {
                assert(hs.take(hs.len() as int) =~= hs);
                assert(es.take(0) =~= Seq::<DefinitionLine>::empty());
            }
        }
    }
}

/// Writing a table as `definition.csv` and reading the text gives back its header
/// lines and data lines, and the colour lookup those lines build, when every field
/// is written so that it reads back.
pub proof fn law_csv_roundtrip(t: Definitions)
    requires
        table_writable(t),
    ensures
        read_definitions(definitions_text(t)) == (Reading::Ongoing {
            table: Definitions { entries: t.entries, colors: colors_of(t.entries), header_lines: t.header_lines },
            found_data: t.entries.len() > 0,
        }),
        t.colors == colors_of(t.entries) ==> read_definitions(definitions_text(t)) == (Reading::Ongoing {
            table: t,
            found_data: t.entries.len() > 0,
        }),
{
    let hs = t.header_lines;
    let texts = entry_texts(t.entries);
    let ls = hs + texts;
    lemma_join_lines_concat(hs, texts);
    assert forall|i: int| 0 <= i < ls.len() implies !has_char(#[trigger] ls[i], '\n') && strip_cr(ls[i]) == ls[i] by {
        if i < hs.len() {
            assert(ls[i] == hs[i]);
            assert(header_writable(hs[i]));
        } else {
            let k = i - hs.len();
            assert(ls[i] == line_text(t.entries[k]));
            assert(line_writable(t.entries[k]));
            lemma_classify_line_text(t.entries[k]);
            let l = line_text(t.entries[k]);
            if l.len() > 0 {
                assert(l[l.len() - 1] != '\r');
            }
        }
    }
    assert forall|i: int| 0 <= i < ls.len() implies strip_cr(#[trigger] ls[i]) == ls[i] by {
        if i < hs.len() {
            assert(ls[i] == hs[i]);
            assert(header_writable(hs[i]));
        } else {
            let k = i - hs.len();
            assert(ls[i] == line_text(t.entries[k]));
            assert(line_writable(t.entries[k]));
            lemma_classify_line_text(t.entries[k]);
            let l = line_text(t.entries[k]);
            if l.len() > 0 {
                assert(l[l.len() - 1] != '\r');
            }
        }
    }
    lemma_lines_of_joined(ls);
    assert(lines(definitions_text(t)) == ls);
    assert forall|i: int| 0 <= i < hs.len() implies #[trigger] classify_line(hs[i]) is Header by {
        assert(header_writable(hs[i]));
    }
    lemma_read_written(hs, t.entries, ls.len());
    assert(t.entries.take(t.entries.len() as int) =~= t.entries);
    if t.entries.len() == 0 {
        assert(hs.take(hs.len() as int) =~= hs);
        assert(t.entries =~= Seq::<DefinitionLine>::empty());
        assert(colors_of(t.entries) == Map::<u32, ProvinceId>::empty());
    }
}


/// Whether `h` can be a header line of a table read from text: it has no line break
/// and is read as a header line.
pub open spec fn header_line(h: Seq<char>) -> bool {
    !has_char(h, '\n') && classify_line(h) is Header
}

/// A header line stays one without a trailing carriage return.
proof fn lemma_header_strip_cr(h: Seq<char>)
    requires
        classify_line(h) is Header,
    ensures
        classify_line(strip_cr(h)) is Header,
{
    if h.len() > 0 && h.last() == '\r' {
        let s = h.drop_last();
        assert(h =~= s.push('\r'));
        lemma_trim_push_space(s, '\r');
        lemma_split_push(s, ';', '\r');
        let ph = split(h, ';');
        let ps = split(s, ';');
        if ph.len() >= 2 {
            assert(ph[0] == ph.drop_last()[0]);
            assert(ps[0] == ps.drop_last()[0]);
        }
    }
}

/// The header lines of a table read from text are header lines.
proof fn lemma_read_header_lines(ls: Seq<Seq<char>>, n: nat)
    requires
        n <= ls.len(),
        forall|k: int| 0 <= k < ls.len() ==> !has_char(#[trigger] ls[k], '\n'),
    ensures
        read_lines(ls, n) matches Reading::Ongoing { table, .. } ==> forall|i: int|
            0 <= i < table.header_lines.len() ==> header_line(#[trigger] table.header_lines[i]),
    decreases n,
{
    if n > 0 {
        lemma_read_header_lines(ls, (n - 1) as nat);
        match read_lines(ls, (n - 1) as nat) {
            Reading::Ongoing { table, found_data } => {
                let line = ls[n - 1];
                if !found_data && classify_line(line) is Header {
                    let hs = table.header_lines.push(line);
                    assert forall|i: int| 0 <= i < hs.len() implies header_line(#[trigger] hs[i]) by {
                        if i < table.header_lines.len() {
                            assert(hs[i] == table.header_lines[i]);
                        }
                    }
                }
            },
            _ => {},
        }
    }
}

/// Every header line of a table read from text is a header line.
pub proof fn law_read_header_lines(content: Seq<char>)
    ensures
        read_definitions(content) matches Reading::Ongoing { table, .. } ==> forall|i: int|
            0 <= i < table.header_lines.len() ==> header_line(#[trigger] table.header_lines[i]),
{
    lemma_lines_lack_break(content);
    lemma_read_header_lines(lines(content), lines(content).len());
}

/// Writing a table as `definition.csv` and reading the text gives back its data lines
/// and the colour lookup they build, when every data field is written so that it reads
/// back, whatever its header lines are: those come back too, each without one trailing
/// carriage return (a line break on writing takes that one with it).
pub proof fn law_csv_entries_roundtrip(t: Definitions)
    requires
        forall|i: int| 0 <= i < t.header_lines.len() ==> header_line(#[trigger] t.header_lines[i]),
        forall|i: int| 0 <= i < t.entries.len() ==> line_writable(#[trigger] t.entries[i]),
    ensures
        read_definitions(definitions_text(t)) == (Reading::Ongoing {
            table: Definitions {
                entries: t.entries,
                colors: colors_of(t.entries),
                header_lines: t.header_lines.map_values(|h: Seq<char>| strip_cr(h)),
            },
            found_data: t.entries.len() > 0,
        }),
{
    let hs = t.header_lines;
    let hs2 = hs.map_values(|h: Seq<char>| strip_cr(h));
    let texts = entry_texts(t.entries);
    let ls = hs + texts;
    lemma_join_lines_concat(hs, texts);
    assert forall|i: int| 0 <= i < ls.len() implies !has_char(#[trigger] ls[i], '\n') by {
        if i < hs.len() {
            assert(ls[i] == hs[i]);
            assert(header_line(hs[i]));
        } else {
            let k = i - hs.len();
            assert(ls[i] == line_text(t.entries[k]));
            assert(line_writable(t.entries[k]));
            lemma_classify_line_text(t.entries[k]);
        }
    }
    lemma_lines_of_joined_stripped(ls);
    let ls2 = hs2 + texts;
    assert(ls.map_values(|l: Seq<char>| strip_cr(l)) =~= ls2) by {
        assert forall|i: int| 0 <= i < ls.len() implies strip_cr(#[trigger] ls[i]) == ls2[i] by {
            if i >= hs.len() {
                let k = i - hs.len();
                assert(ls[i] == line_text(t.entries[k]));
                assert(line_writable(t.entries[k]));
                lemma_classify_line_text(t.entries[k]);
                let l = line_text(t.entries[k]);
                if l.len() > 0 {
                    assert(l[l.len() - 1] != '\r');
                }
            }
        }
    }
    assert(lines(definitions_text(t)) == ls2);
    assert forall|i: int| 0 <= i < hs2.len() implies #[trigger] classify_line(hs2[i]) is Header by {
        assert(header_line(hs[i]));
        lemma_header_strip_cr(hs[i]);
    }
    lemma_read_written(hs2, t.entries, ls2.len());
    assert(t.entries.take(t.entries.len() as int) =~= t.entries);
    if t.entries.len() == 0 {
        assert(hs2.take(hs2.len() as int) =~= hs2);
        assert(t.entries =~= Seq::<DefinitionLine>::empty());
        assert(colors_of(t.entries) == Map::<u32, ProvinceId>::empty());
    }
}

/// Any table read from text, written again and read back, has the same data lines and
/// colour lookup, when every data field is written so that it reads back.
pub proof fn law_reread(content: Seq<char>)
    requires
        read_definitions(content) matches Reading::Ongoing { table, .. } && forall|i: int|
            0 <= i < table.entries.len() ==> line_writable(#[trigger] table.entries[i]),
    ensures
        read_definitions(content) matches Reading::Ongoing { table, .. } && read_definitions(definitions_text(table))
            matches Reading::Ongoing { table: t2, .. } && {
            &&& t2.entries == table.entries
            &&& t2.colors == table.colors
            &&& t2.header_lines == table.header_lines.map_values(|h: Seq<char>| strip_cr(h))
        },
{
    law_read_header_lines(content);
    law_read_lookup(content);
    let table = read_definitions(content)->table;
    law_csv_entries_roundtrip(table);
}

/// Reading builds the colour lookup from the data lines read so far.
proof fn lemma_read_lookup(ls: Seq<Seq<char>>, n: nat)
    ensures
        read_lines(ls, n) matches Reading::Ongoing { table, .. } ==> table.colors == colors_of(table.entries),
    decreases n,
{
    if n > 0 {
        lemma_read_lookup(ls, (n - 1) as nat);
        match read_lines(ls, (n - 1) as nat) {
            Reading::Ongoing { table, .. } => {
                match classify_line(ls[n - 1]) {
                    LineClass::Data(d) => {
                        assert(table.entries.push(d).drop_last() =~= table.entries);
                    },
                    _ => {},
                }
            },
            _ => {},
        }
    }
}

/// A table read from text has the colour lookup of its data lines.
pub proof fn law_read_lookup(content: Seq<char>)
    ensures
        read_definitions(content) matches Reading::Ongoing { table, .. } ==> table.colors == colors_of(table.entries),
{
    lemma_read_lookup(lines(content), lines(content).len());
}

/// Adding a province keeps the colour lookup that of the data lines.
pub proof fn law_add_keeps_lookup(
    before: Definitions,
    after: Definitions,
    color: ProvinceColor,
    kind: ProvinceKind,
    terrain: Seq<char>,
    continent: u32,
    id: ProvinceId,
)
    requires
        province_added(before, after, color, kind, terrain, continent, id),
        before.colors == colors_of(before.entries),
    ensures
        after.colors == colors_of(after.entries),
{
    assert(after.entries.drop_last() =~= before.entries);
}

} // verus!
