//! The data model: headers, module entries, basic blocks, the coverage
//! aggregate, and the validator for its two global invariants.

use std::collections::HashMap;
use vstd::prelude::*;
use vstd::string::StringExecFns;

verus! {

/// The single outer file-format version this library reads and writes.
pub const SUPPORTED_FILE_VERSION: u32 = 2;

/// Errors that can arise while decoding, encoding or validating coverage data.
#[derive(Debug)]
pub enum Error {
    /// The underlying byte stream ended early or held undecodable text.
    Io(String),
    /// An outer header line is missing or does not carry its literal prefix.
    InvalidFormat(String),
    /// The outer format version is well-formed but not the supported value.
    UnsupportedVersion(u32),
    /// The module table header, columns line or a module record is malformed.
    InvalidModuleTable(String),
    /// The basic-block table header is malformed.
    InvalidBbTable(String),
    /// Structurally well-formed data violates a cross-section invariant.
    ValidationError(String),
}

impl Error {
    /// The diagnostic text of an error: a variant-specific heading, then
    /// the carried context.
    pub open spec fn spec_message(&self) -> Seq<char> {
        match self {
            Error::Io(m) => "I/O error: "@ + m@,
            Error::InvalidFormat(m) => "Invalid format: "@ + m@,
            Error::UnsupportedVersion(v) => "Unsupported drcov version: "@
                + crate::numeric::spec_dec_digits(*v as nat),
            Error::InvalidModuleTable(m) => "Invalid module table: "@ + m@,
            Error::InvalidBbTable(m) => "Invalid basic block table: "@ + m@,
            Error::ValidationError(m) => "Validation error: "@ + m@,
        }
    }

    /// Renders the diagnostic message.
    pub fn message(&self) -> (r: String)
        ensures
            r@ == self.spec_message(),
    {
        match self {
            Error::Io(m) => {
                let mut s = String::from_str("I/O error: ");
                s.append(m.as_str());
                s
            },
            Error::InvalidFormat(m) => {
                let mut s = String::from_str("Invalid format: ");
                s.append(m.as_str());
                s
            },
            Error::UnsupportedVersion(v) => {
                let mut s = String::from_str("Unsupported drcov version: ");
                let ds = crate::strutil::dec_u64_string(*v as u64);
                s.append(ds.as_str());
                s
            },
            Error::InvalidModuleTable(m) => {
                let mut s = String::from_str("Invalid module table: ");
                s.append(m.as_str());
                s
            },
            Error::InvalidBbTable(m) => {
                let mut s = String::from_str("Invalid basic block table: ");
                s.append(m.as_str());
                s
            },
            Error::ValidationError(m) => {
                let mut s = String::from_str("Validation error: ");
                s.append(m.as_str());
                s
            },
        }
    }
}

/// The outer file header: format version and free-form tool identifier.
#[derive(Debug, Clone, PartialEq, Eq)]
pub struct FileHeader {
    pub version: u32,
    pub flavor: String,
}

impl Default for FileHeader {
    /// The default header carries the supported version and the `drcov` flavor.
    fn default() -> (r: Self)
        ensures
            r.version == SUPPORTED_FILE_VERSION,
            r.flavor@ == "drcov"@,
    {
        FileHeader { version: SUPPORTED_FILE_VERSION, flavor: "drcov".to_owned() }
    }
}

/// Module table schema versions, ordered `Legacy < V2 < V3 < V4`.
#[derive(Debug, Clone, Copy, PartialEq, Eq, PartialOrd, Ord, Default, Structural)]
pub enum ModuleTableVersion {
    #[default]
    Legacy,
    V2,
    V3,
    V4,
}

impl ModuleTableVersion {
    /// The numeric rank of a schema version, used for `supports field` checks
    /// and for the versioned table header.
    pub open spec fn spec_rank(self) -> u32 {
        match self {
            ModuleTableVersion::Legacy => 1,
            ModuleTableVersion::V2 => 2,
            ModuleTableVersion::V3 => 3,
            ModuleTableVersion::V4 => 4,
        }
    }

    /// Executable twin of [`Self::spec_rank`].
    #[verifier::when_used_as_spec(spec_rank)]
    pub fn rank(self) -> (r: u32)
        ensures
            r == self.spec_rank(),
    {
        match self {
            ModuleTableVersion::Legacy => 1,
            ModuleTableVersion::V2 => 2,
            ModuleTableVersion::V3 => 3,
            ModuleTableVersion::V4 => 4,
        }
    }
}

/// One loaded module of the traced process.
#[derive(Debug, Clone, PartialEq, Eq, Default)]
pub struct ModuleEntry {
    pub id: u32,
    pub base: u64,
    pub end: u64,
    pub entry: u64,
    pub path: String,
    pub containing_id: Option<i32>,
    pub offset: Option<u64>,
    pub checksum: Option<u32>,
    pub timestamp: Option<u32>,
}

/// The mathematical value of a [`ModuleEntry`]: the same fields with the
/// path abstracted to its character sequence.
#[verifier::ext_equal]
pub struct ModuleEntryView {
    pub id: u32,
    pub base: u64,
    pub end: u64,
    pub entry: u64,
    pub path: Seq<char>,
    pub containing_id: Option<i32>,
    pub offset: Option<u64>,
    pub checksum: Option<u32>,
    pub timestamp: Option<u32>,
}

impl View for ModuleEntry {
    type V = ModuleEntryView;

    open spec fn view(&self) -> ModuleEntryView {
        ModuleEntryView {
            id: self.id,
            base: self.base,
            end: self.end,
            entry: self.entry,
            path: self.path@,
            containing_id: self.containing_id,
            offset: self.offset,
            checksum: self.checksum,
            timestamp: self.timestamp,
        }
    }
}

impl ModuleEntryView {
    /// The half-open address range `[base, end)` contains `addr`.
    pub open spec fn spec_contains_address(self, addr: u64) -> bool {
        self.base <= addr && addr < self.end
    }
}

impl ModuleEntry {
    /// Size of the module in bytes; an inverted range reports zero.
    pub fn size(&self) -> (r: u64)
        ensures
            r == if self.end >= self.base {
                (self.end - self.base) as u64
            } else {
                0u64
            },
    {
        if self.end >= self.base {
            self.end - self.base
        } else {
            0
        }
    }

    /// Whether `addr` lies in the half-open range `[base, end)`.
    pub fn contains_address(&self, addr: u64) -> (r: bool)
        ensures
            r == self@.spec_contains_address(addr),
    {
        addr >= self.base && addr < self.end
    }
}

/// One executed basic block: an offset from its module's base, a size,
/// and the id of the module it belongs to.
#[derive(Debug, Clone, Copy, PartialEq, Eq, Structural)]
pub struct BasicBlock {
    pub start: u32,
    pub size: u16,
    pub module_id: u16,
}

impl BasicBlock {
    /// Absolute address of the block: `module.base + start`, wrapping on
    /// 64-bit overflow rather than failing.
    pub fn absolute_address(&self, module: &ModuleEntry) -> (r: u64)
        ensures
            r == vstd::wrapping::u64_specs::wrapping_add(module.base, self.start as u64),
    {
        module.base.wrapping_add(self.start as u64)
    }
}

/// The mathematical value of a [`CoverageData`] aggregate.
#[verifier::ext_equal]
pub struct CoverageDataView {
    pub version: u32,
    pub flavor: Seq<char>,
    pub module_version: ModuleTableVersion,
    pub modules: Seq<ModuleEntryView>,
    pub basic_blocks: Seq<BasicBlock>,
}

/// A complete coverage aggregate.
#[derive(Debug, Clone, PartialEq, Eq, Default)]
pub struct CoverageData {
    pub header: FileHeader,
    pub module_version: ModuleTableVersion,
    pub modules: Vec<ModuleEntry>,
    pub basic_blocks: Vec<BasicBlock>,
}

/// The mathematical values of a sequence of module entries.
pub open spec fn spec_entries_view(ms: Seq<ModuleEntry>) -> Seq<ModuleEntryView> {
    Seq::new(ms.len(), |i: int| ms[i]@)
}

impl View for CoverageData {
    type V = CoverageDataView;

    open spec fn view(&self) -> CoverageDataView {
        CoverageDataView {
            version: self.header.version,
            flavor: self.header.flavor@,
            module_version: self.module_version,
            modules: spec_entries_view(self.modules@),
            basic_blocks: self.basic_blocks@,
        }
    }
}

/// Module ids are exactly `0..n` in sequence order.
pub open spec fn spec_sequential_ids(modules: Seq<ModuleEntryView>) -> bool {
    forall|i: int| 0 <= i < modules.len() ==> #[trigger] modules[i].id == i
}

/// Every basic block references an existing module slot.
pub open spec fn spec_valid_references(
    modules: Seq<ModuleEntryView>,
    blocks: Seq<BasicBlock>,
) -> bool {
    forall|i: int| 0 <= i < blocks.len() ==> (#[trigger] blocks[i].module_id as int) < modules.len()
}

/// Index of the first module, at or after slot `k`, whose id is not its
/// slot number; the length when every id from `k` on is in sequence.
pub open spec fn spec_first_nonseq_from(mods: Seq<ModuleEntryView>, k: int) -> int
    decreases mods.len() - k,
{
    if k < 0 || k >= mods.len() {
        mods.len() as int
    } else if (mods[k].id as int) != k {
        k
    } else {
        spec_first_nonseq_from(mods, k + 1)
    }
}

/// Index of the first block, at or after slot `k`, whose module reference
/// is out of range; the length when every reference from `k` on resolves.
pub open spec fn spec_first_badref_from(blocks: Seq<BasicBlock>, nmods: int, k: int) -> int
    decreases blocks.len() - k,
{
    if k < 0 || k >= blocks.len() {
        blocks.len() as int
    } else if (blocks[k].module_id as int) >= nmods {
        k
    } else {
        spec_first_badref_from(blocks, nmods, k + 1)
    }
}

/// The diagnostic for a module whose id is not its slot number.
pub open spec fn spec_nonseq_msg(id: u32, idx: int) -> Seq<char> {
    "non-sequential module id "@ + crate::numeric::spec_dec_digits(id as nat) + " at index "@
        + crate::numeric::spec_dec_digits(idx as nat)
}

/// The diagnostic for a block whose module reference is out of range.
pub open spec fn spec_badref_msg(module_id: u16) -> Seq<char> {
    "basic block references unknown module id "@ + crate::numeric::spec_dec_digits(
        module_id as nat,
    )
}

/// The diagnostic the validator reports: the first violation in check
/// order, where every module-id check (by slot) precedes every
/// block-reference check (by block order).
pub open spec fn spec_validation_msg(d: CoverageDataView) -> Seq<char> {
    if !spec_sequential_ids(d.modules) {
        let i = spec_first_nonseq_from(d.modules, 0);
        spec_nonseq_msg(d.modules[i].id, i)
    } else {
        let k = spec_first_badref_from(d.basic_blocks, d.modules.len() as int, 0);
        spec_badref_msg(d.basic_blocks[k].module_id)
    }
}

proof fn lemma_first_nonseq_at(mods: Seq<ModuleEntryView>, k: int, i: int)
    requires
        0 <= k <= i < mods.len(),
        forall|j: int| k <= j < i ==> (#[trigger] mods[j].id as int) == j,
        (mods[i].id as int) != i,
    ensures
        spec_first_nonseq_from(mods, k) == i,
    decreases i - k,
{
    if k < i {
        lemma_first_nonseq_at(mods, k + 1, i);
    }
}

proof fn lemma_first_badref_at(blocks: Seq<BasicBlock>, nmods: int, k: int, i: int)
    requires
        0 <= k <= i < blocks.len(),
        forall|j: int| k <= j < i ==> (#[trigger] blocks[j].module_id as int) < nmods,
        (blocks[i].module_id as int) >= nmods,
    ensures
        spec_first_badref_from(blocks, nmods, k) == i,
    decreases i - k,
{
    if k < i {
        lemma_first_badref_at(blocks, nmods, k + 1, i);
    }
}

impl CoverageDataView {
    /// Both global invariants of the aggregate.
    pub open spec fn spec_valid(self) -> bool {
        &&& spec_sequential_ids(self.modules)
        &&& spec_valid_references(self.modules, self.basic_blocks)
    }
}

impl CoverageData {
    /// Checks the two global invariants: sequential module ids, and basic
    /// blocks referencing existing modules.  Returns `Ok` exactly when both
    /// hold; a violation is reported as a validation error carrying the
    /// first violation in check order — the offending module id and slot,
    /// or the first dangling block reference.
    pub fn validate(&self) -> (r: Result<(), Error>)
        ensures
            r is Ok <==> self@.spec_valid(),
            r matches Err(e) ==> e matches Error::ValidationError(msg) && msg@
                == spec_validation_msg(self@),
    {
        let n = self.modules.len();
        let mut i: usize = 0;
        while i < n
            invariant
                n == self.modules.len(),
                0 <= i <= n,
                forall|j: int| 0 <= j < i ==> #[trigger] self@.modules[j].id == j,
            decreases n - i,
        {
            if self.modules[i].id as usize != i {
                proof {
                    assert(self@.modules[i as int].id != i as int);
                    lemma_first_nonseq_at(self@.modules, 0, i as int);
                }
                let mut msg = String::from_str("non-sequential module id ");
                let id_str = crate::strutil::dec_u64_string(self.modules[i].id as u64);
                msg.append(id_str.as_str());
                msg.append(" at index ");
                let idx_str = crate::strutil::dec_u64_string(i as u64);
                msg.append(idx_str.as_str());
                return Err(Error::ValidationError(msg));
            }
            i = i + 1;
        }
        let m = self.basic_blocks.len();
        let mut k: usize = 0;
        while k < m
            invariant
                m == self.basic_blocks.len(),
                n == self.modules.len(),
                0 <= k <= m,
                spec_sequential_ids(self@.modules),
                forall|j: int|
                    0 <= j < k ==> (#[trigger] self@.basic_blocks[j].module_id as int) < n,
            decreases m - k,
        {
            if self.basic_blocks[k].module_id as usize >= n {
                proof {
                    lemma_first_badref_at(self@.basic_blocks, n as int, 0, k as int);
                }
                let mut msg = String::from_str("basic block references unknown module id ");
                let id_str = crate::strutil::dec_u64_string(
                    self.basic_blocks[k].module_id as u64,
                );
                msg.append(id_str.as_str());
                return Err(Error::ValidationError(msg));
            }
            k = k + 1;
        }
        Ok(())
    }

    /// Direct lookup of a module by id.  Returns `None` when the id is out of
    /// range or the entry stored at that slot carries a different id.
    pub fn find_module(&self, id: u16) -> (r: Option<&ModuleEntry>)
        ensures
            r is Some <==> ((id as int) < self@.modules.len()
                && self@.modules[id as int].id == id as u32),
            r matches Some(m) ==> m@ == self@.modules[id as int],
    {
        if (id as usize) < self.modules.len() {
            let m = &self.modules[id as usize];
            if m.id == id as u32 {
                Some(m)
            } else {
                None
            }
        } else {
            None
        }
    }

    /// Linear scan for the first module whose half-open range `[base, end)`
    /// contains `addr`; overlaps resolve to the earliest inserted module.
    pub fn find_module_by_address(&self, addr: u64) -> (r: Option<&ModuleEntry>)
        ensures
            r is None <==> (forall|i: int|
                0 <= i < self@.modules.len()
                    ==> !(#[trigger] self@.modules[i]).spec_contains_address(addr)),
            r matches Some(m) ==> exists|i: int|
                {
                    &&& 0 <= i < self@.modules.len()
                    &&& (#[trigger] self@.modules[i]).spec_contains_address(addr)
                    &&& m@ == self@.modules[i]
                    &&& forall|j: int|
                        0 <= j < i ==> !(#[trigger] self@.modules[j]).spec_contains_address(addr)
                },
    {
        let n = self.modules.len();
        let mut i: usize = 0;
        while i < n
            invariant
                n == self.modules.len(),
                0 <= i <= n,
                forall|j: int|
                    0 <= j < i ==> !(#[trigger] self@.modules[j]).spec_contains_address(addr),
            decreases n - i,
        {
            if self.modules[i].contains_address(addr) {
                proof {
                    assert(self@.modules[i as int].spec_contains_address(addr));
                }
                return Some(&self.modules[i]);
            }
            i = i + 1;
        }
        None
    }
}

/// How many blocks of `blocks` reference the module with this `id`.
pub open spec fn spec_block_count(blocks: Seq<BasicBlock>, id: u16) -> nat
    decreases blocks.len(),
{
    if blocks.len() == 0 {
        0
    } else {
        spec_block_count(blocks.drop_last(), id) + if blocks.last().module_id == id {
            1nat
        } else {
            0nat
        }
    }
}

impl CoverageData {
    /// Per-module coverage statistics: maps each module id that at least one
    /// basic block references to the number of blocks referencing it.
    /// Modules without blocks are absent from the mapping.
    pub fn get_coverage_stats(&self) -> (r: HashMap<u16, usize>)
        ensures
            forall|id: u16|
                r@.contains_key(id) <==> spec_block_count(self@.basic_blocks, id) > 0,
            forall|id: u16|
                r@.contains_key(id) ==> r@[id] == spec_block_count(self@.basic_blocks, id),
    {
        broadcast use vstd::std_specs::hash::group_hash_axioms;

        let mut stats: HashMap<u16, usize> = HashMap::new();
        let m = self.basic_blocks.len();
        let mut k: usize = 0;
        while k < m
            invariant
                m == self.basic_blocks.len(),
                0 <= k <= m,
                forall|id: u16| #[trigger]
                    stats@.contains_key(id) <==> spec_block_count(
                        self@.basic_blocks.take(k as int),
                        id,
                    ) > 0,
                forall|id: u16|
                    #[trigger] stats@.contains_key(id) ==> stats@[id] == spec_block_count(
                        self@.basic_blocks.take(k as int),
                        id,
                    ) && stats@[id] <= k,
            decreases m - k,
        {
            let ghost prefix = self@.basic_blocks.take(k as int);
            let id = self.basic_blocks[k].module_id;
            let c: usize = match stats.get(&id) {
                Some(c) => *c,
                None => 0,
            };
            proof {
                assert(c == spec_block_count(prefix, id));
                assert(self@.basic_blocks.take(k + 1).drop_last() =~= prefix);
                assert(self@.basic_blocks.take(k + 1).last() == self@.basic_blocks[k as int]);
                assert forall|other: u16| other != id implies spec_block_count(
                    self@.basic_blocks.take(k + 1),
                    other,
                ) == spec_block_count(prefix, other) by {}
            }
            stats.insert(id, c + 1);
            k = k + 1;
        }
        proof {
            assert(self@.basic_blocks.take(m as int) =~= self@.basic_blocks);
        }
        stats
    }
}

} // verus!
