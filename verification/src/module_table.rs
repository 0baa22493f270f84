//! The module-table codec: the closed set of column names, name-driven
//! record decoding, and record encoding.

use crate::model::ModuleEntry;
use crate::model::ModuleEntryView;
use crate::model::ModuleTableVersion;
use crate::numeric::parse_hex_u64;
use crate::numeric::parse_i32_dec;
use crate::numeric::parse_u32_dec;
use crate::numeric::spec_dec_digits;
use crate::numeric::spec_hex_digits;
use crate::numeric::spec_int_digits;
use crate::numeric::spec_parse_hex;
use crate::numeric::spec_parse_i32;
use crate::numeric::spec_parse_uint;
use crate::numeric::spec_zero_pad;
use crate::strutil::lemma_encode_utf8_concat;
use crate::strutil::push_dec_chars;
use crate::strutil::push_hex_chars;
use crate::strutil::push_hex_padded_chars;
use crate::strutil::push_i32_chars;
use crate::strutil::push_str_bytes;
use crate::text::spec_splitn;
use crate::text::spec_trim;
use crate::text::splitn;
use crate::text::trim;
use crate::text::views_of;
use vstd::prelude::*;
use vstd::utf8::encode_utf8;

verus! {

/// The closed set of recognized module-table column names; any other name
/// is carried as [`Col::Other`] and ignored by field lookup.
#[derive(Debug, Clone, Copy, PartialEq, Eq, Structural)]
pub enum Col {
    Id,
    Base,
    Start,
    End,
    Entry,
    Path,
    ContainingId,
    Offset,
    Checksum,
    Timestamp,
    Other,
}

/// Which column a (trimmed) name from a `Columns:` line denotes.
pub open spec fn spec_col_of(s: Seq<char>) -> Col {
    if s == "id"@ {
        Col::Id
    } else if s == "base"@ {
        Col::Base
    } else if s == "start"@ {
        Col::Start
    } else if s == "end"@ {
        Col::End
    } else if s == "entry"@ {
        Col::Entry
    } else if s == "path"@ {
        Col::Path
    } else if s == "containing_id"@ {
        Col::ContainingId
    } else if s == "offset"@ {
        Col::Offset
    } else if s == "checksum"@ {
        Col::Checksum
    } else if s == "timestamp"@ {
        Col::Timestamp
    } else {
        Col::Other
    }
}

/// Whether `s` spells exactly the characters of `lit`.
pub fn chars_eq(s: &str, lit: &str) -> (r: bool)
    ensures
        r == (s@ == lit@),
{
    let n = s.unicode_len();
    let m = lit.unicode_len();
    if n != m {
        return false;
    }
    let mut i: usize = 0;
    while i < n
        invariant
            n == s@.len(),
            m == lit@.len(),
            n == m,
            0 <= i <= n,
            forall|j: int| 0 <= j < i ==> s@[j] == #[trigger] lit@[j],
        decreases n - i,
    {
        if s.get_char(i) != lit.get_char(i) {
            return false;
        }
        i = i + 1;
    }
    proof {
        assert(s@ =~= lit@);
    }
    true
}

/// Executable twin of [`spec_col_of`].
pub fn col_of(s: &str) -> (r: Col)
    ensures
        r == spec_col_of(s@),
{
    if chars_eq(s, "id") {
        Col::Id
    } else if chars_eq(s, "base") {
        Col::Base
    } else if chars_eq(s, "start") {
        Col::Start
    } else if chars_eq(s, "end") {
        Col::End
    } else if chars_eq(s, "entry") {
        Col::Entry
    } else if chars_eq(s, "path") {
        Col::Path
    } else if chars_eq(s, "containing_id") {
        Col::ContainingId
    } else if chars_eq(s, "offset") {
        Col::Offset
    } else if chars_eq(s, "checksum") {
        Col::Checksum
    } else if chars_eq(s, "timestamp") {
        Col::Timestamp
    } else {
        Col::Other
    }
}

/// The value of column `c` among the (column, value) pairs of one record;
/// when a name is declared twice, the later occurrence wins.
pub open spec fn spec_lookup(cols: Seq<Col>, vals: Seq<Seq<char>>, c: Col) -> Option<Seq<char>>
    recommends
        cols.len() == vals.len(),
    decreases cols.len(),
{
    if cols.len() == 0 || vals.len() == 0 {
        None
    } else if cols.last() == c {
        Some(vals.last())
    } else {
        spec_lookup(cols.drop_last(), vals.drop_last(), c)
    }
}

/// Executable twin of [`spec_lookup`].
fn lookup<'a>(cols: &Vec<Col>, vals: &'a Vec<String>, c: Col) -> (r: Option<&'a String>)
    requires
        cols@.len() == vals@.len(),
    ensures
        match r {
            Some(s) => spec_lookup(cols@, views_of(vals@), c) == Some(s@),
            None => spec_lookup(cols@, views_of(vals@), c) is None,
        },
{
    let n = cols.len();
    let mut i: usize = n;
    proof {
        assert(cols@.take(n as int) =~= cols@);
        assert(views_of(vals@).take(n as int) =~= views_of(vals@));
    }
    while i > 0
        invariant
            n == cols@.len(),
            n == vals@.len(),
            0 <= i <= n,
            spec_lookup(cols@, views_of(vals@), c) == spec_lookup(
                cols@.take(i as int),
                views_of(vals@).take(i as int),
                c,
            ),
        decreases i,
    {
        proof {
            let cs = cols@.take(i as int);
            let vs = views_of(vals@).take(i as int);
            assert(cs.last() == cols@[i - 1]);
            assert(vs.last() == vals@[i - 1]@);
            assert(cs.drop_last() =~= cols@.take(i - 1));
            assert(vs.drop_last() =~= views_of(vals@).take(i - 1));
        }
        if cols[i - 1] == c {
            return Some(&vals[i - 1]);
        }
        i = i - 1;
    }
    proof {
        assert(cols@.take(0) =~= Seq::<Col>::empty());
    }
    None
}

/// A hexadecimal field: looked up by column, `0x` prefixes stripped, parsed
/// as hexadecimal, with both absence and a malformed value mapping to `None`.
pub open spec fn spec_hex_field(
    cols: Seq<Col>,
    vals: Seq<Seq<char>>,
    c: Col,
    max: nat,
) -> Option<nat> {
    match spec_lookup(cols, vals, c) {
        Some(s) => spec_parse_hex(s, max),
        None => None,
    }
}

/// How one module record line decodes under a declared column list: the
/// line is split into exactly as many comma-separated fields as there are
/// columns (the last column absorbing any further commas), fields are
/// trimmed and looked up by column name, and each field is decoded by its
/// column's format.  `None` is a malformed record.
pub open spec fn spec_entry_of_line(line: Seq<char>, cols: Seq<Col>) -> Option<ModuleEntryView> {
    let vals = spec_splitn(line, cols.len(), ',').map_values(|v: Seq<char>| spec_trim(v));
    if vals.len() != cols.len() {
        None
    } else {
        spec_entry_of_values(cols, vals)
    }
}

/// Field extraction once a record has been split into per-column values.
pub open spec fn spec_entry_of_values(cols: Seq<Col>, vals: Seq<Seq<char>>) -> Option<
    ModuleEntryView,
> {
    let id_opt = match spec_lookup(cols, vals, Col::Id) {
        Some(s) => spec_parse_uint(s, 10, u32::MAX as nat),
        None => None,
    };
    match id_opt {
        None => None,
        Some(id) => Some(
            ModuleEntryView {
                id: id as u32,
                base: match spec_hex_field(cols, vals, Col::Base, u64::MAX as nat) {
                    Some(v) => v as u64,
                    None => match spec_hex_field(cols, vals, Col::Start, u64::MAX as nat) {
                        Some(v) => v as u64,
                        None => 0u64,
                    },
                },
                end: match spec_hex_field(cols, vals, Col::End, u64::MAX as nat) {
                    Some(v) => v as u64,
                    None => 0u64,
                },
                entry: match spec_hex_field(cols, vals, Col::Entry, u64::MAX as nat) {
                    Some(v) => v as u64,
                    None => 0u64,
                },
                path: match spec_lookup(cols, vals, Col::Path) {
                    Some(s) => s,
                    None => Seq::<char>::empty(),
                },
                containing_id: match spec_lookup(cols, vals, Col::ContainingId) {
                    Some(s) => match spec_parse_i32(s) {
                        Some(v) => Some(v as i32),
                        None => None,
                    },
                    None => None,
                },
                offset: match spec_hex_field(cols, vals, Col::Offset, u64::MAX as nat) {
                    Some(v) => Some(v as u64),
                    None => None,
                },
                checksum: match spec_hex_field(cols, vals, Col::Checksum, u32::MAX as nat) {
                    Some(v) => Some(v as u32),
                    None => None,
                },
                timestamp: match spec_hex_field(cols, vals, Col::Timestamp, u32::MAX as nat) {
                    Some(v) => Some(v as u32),
                    None => None,
                },
            },
        ),
    }
}

/// Looks up a hexadecimal field and parses it; matches [`spec_hex_field`].
fn hex_field(cols: &Vec<Col>, vals: &Vec<String>, c: Col, max: u64) -> (r: Option<u64>)
    requires
        cols@.len() == vals@.len(),
    ensures
        match r {
            Some(v) => spec_hex_field(cols@, views_of(vals@), c, max as nat) == Some(v as nat),
            None => spec_hex_field(cols@, views_of(vals@), c, max as nat) is None,
        },
{
    match lookup(cols, vals, c) {
        Some(s) => parse_hex_u64(s.as_str(), max),
        None => None,
    }
}

/// Decodes one (already trimmed) module record line under the declared
/// columns, as [`spec_entry_of_line`] describes; a malformed record is an
/// invalid-module-table error.
pub fn parse_module_entry(line: &str, columns: &Vec<Col>) -> (r: Result<
    ModuleEntry,
    crate::model::Error,
>)
    ensures
        match spec_entry_of_line(line@, columns@) {
            Some(ev) => r matches Ok(m) && m@ == ev,
            None => r matches Err(e) && e is InvalidModuleTable,
        },
{
    let ghost sp_vals = spec_splitn(line@, columns@.len(), ',').map_values(
        |v: Seq<char>| spec_trim(v),
    );
    if columns.len() == 0 {
        return Err(
            crate::model::Error::InvalidModuleTable("record has no declared columns".to_owned()),
        );
    }
    let raw = splitn(line, columns.len(), ',');
    let mut vals: Vec<String> = Vec::new();
    let mut i: usize = 0;
    while i < raw.len()
        invariant
            0 <= i <= raw@.len(),
            vals@.len() == i,
            forall|j: int|
                0 <= j < i ==> #[trigger] vals@[j]@ == spec_trim(views_of(raw@)[j]),
        decreases raw@.len() - i,
    {
        vals.push(trim(raw[i].as_str()).to_owned());
        i = i + 1;
    }
    proof {
        assert(views_of(vals@) =~= sp_vals);
    }
    if vals.len() != columns.len() {
        return Err(
            crate::model::Error::InvalidModuleTable("column count mismatch".to_owned()),
        );
    }
    let id: u32 = match lookup(columns, &vals, Col::Id) {
        Some(s) => match parse_u32_dec(s.as_str()) {
            Some(v) => v,
            None => {
                return Err(
                    crate::model::Error::InvalidModuleTable("malformed module id".to_owned()),
                );
            },
        },
        None => {
            return Err(
                crate::model::Error::InvalidModuleTable("missing module id".to_owned()),
            );
        },
    };
    let base: u64 = match hex_field(columns, &vals, Col::Base, u64::MAX) {
        Some(v) => v,
        None => match hex_field(columns, &vals, Col::Start, u64::MAX) {
            Some(v) => v,
            None => 0,
        },
    };
    let end: u64 = match hex_field(columns, &vals, Col::End, u64::MAX) {
        Some(v) => v,
        None => 0,
    };
    let entry: u64 = match hex_field(columns, &vals, Col::Entry, u64::MAX) {
        Some(v) => v,
        None => 0,
    };
    let path: String = match lookup(columns, &vals, Col::Path) {
        Some(s) => s.clone(),
        None => String::new(),
    };
    let containing_id: Option<i32> = match lookup(columns, &vals, Col::ContainingId) {
        Some(s) => parse_i32_dec(s.as_str()),
        None => None,
    };
    let offset: Option<u64> = hex_field(columns, &vals, Col::Offset, u64::MAX);
    let checksum: Option<u32> = match hex_field(columns, &vals, Col::Checksum, u32::MAX as u64) {
        Some(v) => Some(v as u32),
        None => None,
    };
    let timestamp: Option<u32> = match hex_field(columns, &vals, Col::Timestamp, u32::MAX as u64) {
        Some(v) => Some(v as u32),
        None => None,
    };
    Ok(
        ModuleEntry {
            id,
            base,
            end,
            entry,
            path,
            containing_id,
            offset,
            checksum,
            timestamp,
        },
    )
}

/// An optional offset as the writer renders it: zero when absent.
pub open spec fn spec_or_zero_u64(v: Option<u64>) -> u64 {
    match v {
        Some(x) => x,
        None => 0u64,
    }
}

/// An optional 32-bit field as the writer renders it: zero when absent.
pub open spec fn spec_or_zero_u32(v: Option<u32>) -> u32 {
    match v {
        Some(x) => x,
        None => 0u32,
    }
}

/// The containing-module id as the writer renders it: `-1` when absent.
pub open spec fn spec_ci_value(m: ModuleEntryView) -> int {
    match m.containing_id {
        Some(v) => v as int,
        None => -1,
    }
}

/// One module record line as the writer emits it: decimal id, the fields
/// that the schema version and the set-wide platform-field flag call for,
/// and the path last, comma-and-space separated.
pub open spec fn spec_module_line(
    m: ModuleEntryView,
    version: ModuleTableVersion,
    win: bool,
) -> Seq<char> {
    spec_dec_digits(m.id as nat) + (if version.spec_rank() >= 3 {
        ", "@
    } else {
        Seq::<char>::empty()
    }) + (if version.spec_rank() >= 3 {
        spec_int_digits(spec_ci_value(m))
    } else {
        Seq::<char>::empty()
    }) + ", "@ + "0x"@ + spec_zero_pad(spec_hex_digits(m.base as nat), 16) + ", "@ + "0x"@
        + spec_zero_pad(spec_hex_digits(m.end as nat), 16) + ", "@ + "0x"@ + spec_zero_pad(
        spec_hex_digits(m.entry as nat),
        16,
    ) + (if version.spec_rank() >= 4 {
        ", "@
    } else {
        Seq::<char>::empty()
    }) + (if version.spec_rank() >= 4 {
        "0x"@
    } else {
        Seq::<char>::empty()
    }) + (if version.spec_rank() >= 4 {
        spec_hex_digits(spec_or_zero_u64(m.offset) as nat)
    } else {
        Seq::<char>::empty()
    }) + (if win {
        ", "@
    } else {
        Seq::<char>::empty()
    }) + (if win {
        "0x"@
    } else {
        Seq::<char>::empty()
    }) + (if win {
        spec_zero_pad(spec_hex_digits(spec_or_zero_u32(m.checksum) as nat), 8)
    } else {
        Seq::<char>::empty()
    }) + (if win {
        ", "@
    } else {
        Seq::<char>::empty()
    }) + (if win {
        "0x"@
    } else {
        Seq::<char>::empty()
    }) + (if win {
        spec_zero_pad(spec_hex_digits(spec_or_zero_u32(m.timestamp) as nat), 8)
    } else {
        Seq::<char>::empty()
    }) + ", "@ + m.path
}

/// Rewrites one piece-append at the byte level to the character level.
proof fn lemma_append_piece(base: Seq<u8>, cs: Seq<char>, piece: Seq<char>)
    ensures
        (base + encode_utf8(cs)) + encode_utf8(piece) == base + encode_utf8(cs + piece),
{
    lemma_encode_utf8_concat(cs, piece);
    assert((base + encode_utf8(cs)) + encode_utf8(piece) =~= base + (encode_utf8(cs)
        + encode_utf8(piece)));
}

/// Appending an empty piece changes nothing.
proof fn lemma_append_empty(base: Seq<u8>, bytes: Seq<u8>, cs: Seq<char>)
    requires
        bytes == base + encode_utf8(cs),
    ensures
        bytes == base + encode_utf8(cs + Seq::<char>::empty()),
{
    assert(cs + Seq::<char>::empty() =~= cs);
}

/// Emits one module record line, newline included, exactly as
/// [`spec_module_line`] lays it out.
#[verifier::rlimit(100)]
#[verifier::spinoff_prover]
pub fn write_module_line(
    out: &mut Vec<u8>,
    module: &ModuleEntry,
    version: ModuleTableVersion,
    win: bool,
)
    ensures
        final(out)@ == old(out)@ + encode_utf8(spec_module_line(module@, version, win)) + seq![
            10u8,
        ],
{
    let ghost base0 = out@;
    let ghost mut cs: Seq<char> = Seq::<char>::empty();
    proof {
        assert(encode_utf8(cs) =~= Seq::<u8>::empty());
        assert(out@ =~= base0 + encode_utf8(cs));
    }
    push_dec_chars(out, module.id as u64);
    proof {
        lemma_append_piece(base0, cs, spec_dec_digits(module.id as nat));
        cs = cs + spec_dec_digits(module.id as nat);
    }
    let ghost p_ci_sep = if version.spec_rank() >= 3 {
        ", "@
    } else {
        Seq::<char>::empty()
    };
    let ghost p_ci = if version.spec_rank() >= 3 {
        spec_int_digits(spec_ci_value(module@))
    } else {
        Seq::<char>::empty()
    };
    if version.rank() >= 3 {
        push_str_bytes(out, ", ");
        proof {
            lemma_append_piece(base0, cs, p_ci_sep);
            cs = cs + p_ci_sep;
        }
        let ci: i32 = match module.containing_id {
            Some(v) => v,
            None => -1,
        };
        push_i32_chars(out, ci);
        proof {
            lemma_append_piece(base0, cs, p_ci);
            cs = cs + p_ci;
        }
    } else {
        proof {
            lemma_append_empty(base0, out@, cs);
            cs = cs + p_ci_sep;
            lemma_append_empty(base0, out@, cs);
            cs = cs + p_ci;
        }
    }
    push_str_bytes(out, ", ");
    push_str_bytes(out, "0x");
    push_hex_padded_chars(out, module.base, 16);
    proof {
        lemma_append_piece(base0, cs, ", "@);
        cs = cs + ", "@;
        lemma_append_piece(base0, cs, "0x"@);
        cs = cs + "0x"@;
        lemma_append_piece(base0, cs, spec_zero_pad(spec_hex_digits(module.base as nat), 16));
        cs = cs + spec_zero_pad(spec_hex_digits(module.base as nat), 16);
    }
    push_str_bytes(out, ", ");
    push_str_bytes(out, "0x");
    push_hex_padded_chars(out, module.end, 16);
    proof {
        lemma_append_piece(base0, cs, ", "@);
        cs = cs + ", "@;
        lemma_append_piece(base0, cs, "0x"@);
        cs = cs + "0x"@;
        lemma_append_piece(base0, cs, spec_zero_pad(spec_hex_digits(module.end as nat), 16));
        cs = cs + spec_zero_pad(spec_hex_digits(module.end as nat), 16);
    }
    push_str_bytes(out, ", ");
    push_str_bytes(out, "0x");
    push_hex_padded_chars(out, module.entry, 16);
    proof {
        lemma_append_piece(base0, cs, ", "@);
        cs = cs + ", "@;
        lemma_append_piece(base0, cs, "0x"@);
        cs = cs + "0x"@;
        lemma_append_piece(base0, cs, spec_zero_pad(spec_hex_digits(module.entry as nat), 16));
        cs = cs + spec_zero_pad(spec_hex_digits(module.entry as nat), 16);
    }
    let ghost p_off_sep = if version.spec_rank() >= 4 {
        ", "@
    } else {
        Seq::<char>::empty()
    };
    let ghost p_off_0x = if version.spec_rank() >= 4 {
        "0x"@
    } else {
        Seq::<char>::empty()
    };
    let ghost p_off = if version.spec_rank() >= 4 {
        spec_hex_digits(spec_or_zero_u64(module@.offset) as nat)
    } else {
        Seq::<char>::empty()
    };
    if version.rank() >= 4 {
        push_str_bytes(out, ", ");
        proof {
            lemma_append_piece(base0, cs, p_off_sep);
            cs = cs + p_off_sep;
        }
        push_str_bytes(out, "0x");
        proof {
            lemma_append_piece(base0, cs, p_off_0x);
            cs = cs + p_off_0x;
        }
        let off: u64 = match module.offset {
            Some(v) => v,
            None => 0,
        };
        push_hex_chars(out, off);
        proof {
            lemma_append_piece(base0, cs, p_off);
            cs = cs + p_off;
        }
    } else {
        proof {
            lemma_append_empty(base0, out@, cs);
            cs = cs + p_off_sep;
            lemma_append_empty(base0, out@, cs);
            cs = cs + p_off_0x;
            lemma_append_empty(base0, out@, cs);
            cs = cs + p_off;
        }
    }
    let ghost p_ck_sep = if win {
        ", "@
    } else {
        Seq::<char>::empty()
    };
    let ghost p_ck_0x = if win {
        "0x"@
    } else {
        Seq::<char>::empty()
    };
    let ghost p_ck = if win {
        spec_zero_pad(spec_hex_digits(spec_or_zero_u32(module@.checksum) as nat), 8)
    } else {
        Seq::<char>::empty()
    };
    let ghost p_ts_sep = if win {
        ", "@
    } else {
        Seq::<char>::empty()
    };
    let ghost p_ts_0x = if win {
        "0x"@
    } else {
        Seq::<char>::empty()
    };
    let ghost p_ts = if win {
        spec_zero_pad(spec_hex_digits(spec_or_zero_u32(module@.timestamp) as nat), 8)
    } else {
        Seq::<char>::empty()
    };
    if win {
        push_str_bytes(out, ", ");
        proof {
            lemma_append_piece(base0, cs, p_ck_sep);
            cs = cs + p_ck_sep;
        }
        push_str_bytes(out, "0x");
        proof {
            lemma_append_piece(base0, cs, p_ck_0x);
            cs = cs + p_ck_0x;
        }
        let cksum: u32 = match module.checksum {
            Some(v) => v,
            None => 0,
        };
        push_hex_padded_chars(out, cksum as u64, 8);
        proof {
            lemma_append_piece(base0, cs, p_ck);
            cs = cs + p_ck;
        }
        push_str_bytes(out, ", ");
        proof {
            lemma_append_piece(base0, cs, p_ts_sep);
            cs = cs + p_ts_sep;
        }
        push_str_bytes(out, "0x");
        proof {
            lemma_append_piece(base0, cs, p_ts_0x);
            cs = cs + p_ts_0x;
        }
        let ts: u32 = match module.timestamp {
            Some(v) => v,
            None => 0,
        };
        push_hex_padded_chars(out, ts as u64, 8);
        proof {
            lemma_append_piece(base0, cs, p_ts);
            cs = cs + p_ts;
        }
    } else {
        proof {
            lemma_append_empty(base0, out@, cs);
            cs = cs + p_ck_sep;
            lemma_append_empty(base0, out@, cs);
            cs = cs + p_ck_0x;
            lemma_append_empty(base0, out@, cs);
            cs = cs + p_ck;
            lemma_append_empty(base0, out@, cs);
            cs = cs + p_ts_sep;
            lemma_append_empty(base0, out@, cs);
            cs = cs + p_ts_0x;
            lemma_append_empty(base0, out@, cs);
            cs = cs + p_ts;
        }
    }
    push_str_bytes(out, ", ");
    proof {
        lemma_append_piece(base0, cs, ", "@);
        cs = cs + ", "@;
    }
    push_str_bytes(out, module.path.as_str());
    out.push(10);
    proof {
        lemma_append_piece(base0, cs, module@.path);
        cs = cs + module@.path;
        assert(cs == spec_module_line(module@, version, win));
    }
}

} // verus!
