//! A fluent, validating constructor for [`CoverageData`].

use crate::model::BasicBlock;
use crate::model::CoverageData;
use crate::model::CoverageDataView;
use crate::model::Error;
use crate::model::FileHeader;
use crate::model::ModuleEntry;
use crate::model::ModuleEntryView;
use crate::model::ModuleTableVersion;
use vstd::prelude::*;

verus! {

/// Builds a [`CoverageData`] step by step; [`CoverageBuilder::build`] runs the
/// validator, so a successfully built aggregate satisfies both global
/// invariants.
#[derive(Debug, Default)]
pub struct CoverageBuilder {
    data: CoverageData,
}

impl View for CoverageBuilder {
    type V = CoverageDataView;

    closed spec fn view(&self) -> CoverageDataView {
        self.data@
    }
}

impl CoverageData {
    /// Starts a builder with the default header, `Legacy` module table
    /// version, and no modules or blocks.
    pub fn builder() -> (r: CoverageBuilder)
        ensures
            r@.version == crate::model::SUPPORTED_FILE_VERSION,
            r@.flavor == "drcov"@,
            r@.module_version == ModuleTableVersion::Legacy,
            r@.modules =~= Seq::<ModuleEntryView>::empty(),
            r@.basic_blocks =~= Seq::<BasicBlock>::empty(),
    {
        CoverageBuilder {
            data: CoverageData {
                header: FileHeader::default(),
                module_version: ModuleTableVersion::Legacy,
                modules: Vec::new(),
                basic_blocks: Vec::new(),
            },
        }
    }
}

impl CoverageBuilder {
    /// Sets the tool flavor string; the last call wins.
    pub fn flavor(self, flavor: &str) -> (r: Self)
        ensures
            r@.flavor == flavor@,
            r@.version == self@.version,
            r@.module_version == self@.module_version,
            r@.modules == self@.modules,
            r@.basic_blocks == self@.basic_blocks,
    {
        let mut s = self;
        s.data.header.flavor = flavor.to_owned();
        s
    }

    /// Sets the module table schema version to emit; the last call wins.
    pub fn module_version(self, version: ModuleTableVersion) -> (r: Self)
        ensures
            r@.module_version == version,
            r@.version == self@.version,
            r@.flavor == self@.flavor,
            r@.modules == self@.modules,
            r@.basic_blocks == self@.basic_blocks,
    {
        let mut s = self;
        s.data.module_version = version;
        s
    }

    /// Appends a module with the next sequential id; every field other than
    /// path, base and end defaults to zero or absent.
    pub fn add_module(self, path: &str, base: u64, end: u64) -> (r: Self)
        ensures
            r@.modules =~= self@.modules.push(
                ModuleEntryView {
                    id: self@.modules.len() as u32,
                    base: base,
                    end: end,
                    entry: 0,
                    path: path@,
                    containing_id: None,
                    offset: None,
                    checksum: None,
                    timestamp: None,
                },
            ),
            r@.version == self@.version,
            r@.flavor == self@.flavor,
            r@.module_version == self@.module_version,
            r@.basic_blocks == self@.basic_blocks,
    {
        let mut s = self;
        let id = #[verifier::truncate] (s.data.modules.len() as u32);
        s.data.modules.push(
            ModuleEntry {
                id,
                base,
                end,
                entry: 0,
                path: path.to_owned(),
                containing_id: None,
                offset: None,
                checksum: None,
                timestamp: None,
            },
        );
        s
    }

    /// Appends a fully specified module entry as given.
    pub fn add_full_module(self, module: ModuleEntry) -> (r: Self)
        ensures
            r@.modules =~= self@.modules.push(module@),
            r@.version == self@.version,
            r@.flavor == self@.flavor,
            r@.module_version == self@.module_version,
            r@.basic_blocks == self@.basic_blocks,
    {
        let mut s = self;
        s.data.modules.push(module);
        s
    }

    /// Appends a basic block given as module id, offset and size.
    pub fn add_coverage(self, module_id: u16, offset: u32, size: u16) -> (r: Self)
        ensures
            r@.basic_blocks =~= self@.basic_blocks.push(
                BasicBlock { start: offset, size: size, module_id: module_id },
            ),
            r@.version == self@.version,
            r@.flavor == self@.flavor,
            r@.module_version == self@.module_version,
            r@.modules == self@.modules,
    {
        let mut s = self;
        s.data.basic_blocks.push(BasicBlock { start: offset, size, module_id });
        s
    }

    /// Appends a basic block as given.
    pub fn add_basic_block(self, block: BasicBlock) -> (r: Self)
        ensures
            r@.basic_blocks =~= self@.basic_blocks.push(block),
            r@.version == self@.version,
            r@.flavor == self@.flavor,
            r@.module_version == self@.module_version,
            r@.modules == self@.modules,
    {
        let mut s = self;
        s.data.basic_blocks.push(block);
        s
    }

    /// Finishes construction.  Succeeds exactly when the accumulated data
    /// satisfies both global invariants; a failure carries the validator's
    /// first-violation diagnostic.
    pub fn build(self) -> (r: Result<CoverageData, Error>)
        ensures
            r is Ok <==> self@.spec_valid(),
            r matches Ok(d) ==> d@ == self@,
            r matches Err(e) ==> e matches Error::ValidationError(msg) && msg@
                == crate::model::spec_validation_msg(self@),
    {
        match self.data.validate() {
            Ok(()) => Ok(self.data),
            Err(e) => Err(e),
        }
    }
}

} // verus!
