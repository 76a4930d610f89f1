//! What the loader reads of an ELF file, through the `elf` crate.
//!
//! Each reader parses the file header with `ElfBytes::<AnyEndian>::minimal_parse` and
//! then asks one thing of the parsed file, handing it back as plain values. What the
//! `elf` crate finds in given bytes takes its whole parser to state, and depends on the
//! bytes alone, so each answer is named by an uninterpreted spec function of the bytes.
use vstd::prelude::*;
use elf::endian::AnyEndian;
use elf::ElfBytes;

verus! {

/// Program header type of a loadable segment.
pub const PT_LOAD: u32 = 1;
/// Section type of relocations with addends.
pub const SHT_RELA: u32 = 4;
/// x86-64 relocation: the load base plus the addend.
pub const R_X86_64_RELATIVE: u32 = 8;
/// x86-64 relocation: the value of a symbol.
pub const R_X86_64_GLOB_DAT: u32 = 6;

/// The fields of a program header that the loader reads.
#[derive(Clone, Copy, Debug, PartialEq, Eq, Structural)]
pub struct Segment {
    pub p_type: u32,
    pub p_offset: u64,
    pub p_vaddr: u64,
    pub p_filesz: u64,
    pub p_memsz: u64,
}

/// A section header, field by field.
#[derive(Clone, Copy, Debug, PartialEq, Eq, Structural)]
pub struct Section {
    pub sh_name: u32,
    pub sh_type: u32,
    pub sh_flags: u64,
    pub sh_addr: u64,
    pub sh_offset: u64,
    pub sh_size: u64,
    pub sh_link: u32,
    pub sh_info: u32,
    pub sh_addralign: u64,
    pub sh_entsize: u64,
}

/// A relocation with addend.
#[derive(Clone, Copy, Debug, PartialEq, Eq, Structural)]
pub struct Rela {
    pub r_offset: u64,
    pub r_sym: u32,
    pub r_type: u32,
    pub r_addend: i64,
}

/// Whether `ElfBytes::<AnyEndian>::minimal_parse` accepts `data`.
pub uninterp spec fn elf_parses(data: Seq<u8>) -> bool;

/// The entry point in the file header that `minimal_parse` reads from `data`.
pub uninterp spec fn elf_entry(data: Seq<u8>) -> u64;

/// What `ElfBytes::segments` gives for `data`: its program headers, if it has any.
pub uninterp spec fn elf_segments(data: Seq<u8>) -> Option<Seq<Segment>>;

/// What `ElfBytes::section_headers` gives for `data`: its section headers, if any.
pub uninterp spec fn elf_sections(data: Seq<u8>) -> Option<Seq<Section>>;

/// What `ElfBytes::section_data_as_relas` gives for section `sh` of `data`: its
/// relocations, or `None` where it fails.
pub uninterp spec fn elf_relas(data: Seq<u8>, sh: Section) -> Option<Seq<Rela>>;

/// What `ElfBytes::dynamic_symbol_table` followed by `SymbolTable::get` gives for the
/// symbol at `index` in `data`: `Ok(None)` where there is no dynamic symbol table, the
/// symbol's value where there is one, `Err` where either call fails.
pub uninterp spec fn elf_symbol_value(data: Seq<u8>, index: u32) -> Result<Option<u64>, ()>;

/// A vector of values read from a file, taken as a sequence.
pub open spec fn read_view<T>(r: Result<Option<Vec<T>>, ()>) -> Result<Option<Seq<T>>, ()> {
    match r {
        Ok(Some(v)) => Ok(Some(v@)),
        Ok(None) => Ok(None),
        Err(e) => Err(e),
    }
}

/// The entry point of `data`: `minimal_parse`, then the `e_entry` field of its header.
#[verifier::external_body]
pub(crate) fn read_entry(data: &[u8]) -> (r: Result<u64, ()>)
    ensures
        r is Ok <==> elf_parses(data@),
        r matches Ok(e) ==> e == elf_entry(data@),
{
    match ElfBytes::<AnyEndian>::minimal_parse(data) {
        Ok(file) => Ok(file.ehdr.e_entry),
        Err(_) => Err(()),
    }
}

/// The program headers of `data`: `minimal_parse`, then `segments`, each header taken
/// field by field.
#[verifier::external_body]
pub(crate) fn read_segments(data: &[u8]) -> (r: Result<Option<Vec<Segment>>, ()>)
    ensures
        r is Ok <==> elf_parses(data@),
        r is Ok ==> read_view(r)->Ok_0 == elf_segments(data@),
{
    match ElfBytes::<AnyEndian>::minimal_parse(data) {
        Ok(file) => Ok(file.segments().map(|t| t.iter().map(|p| Segment {
            p_type: p.p_type,
            p_offset: p.p_offset,
            p_vaddr: p.p_vaddr,
            p_filesz: p.p_filesz,
            p_memsz: p.p_memsz,
        }).collect())),
        Err(_) => Err(()),
    }
}

/// The section headers of `data`: `minimal_parse`, then `section_headers`, each header
/// taken field by field.
#[verifier::external_body]
pub(crate) fn read_sections(data: &[u8]) -> (r: Result<Option<Vec<Section>>, ()>)
    ensures
        r is Ok <==> elf_parses(data@),
        r is Ok ==> read_view(r)->Ok_0 == elf_sections(data@),
{
    match ElfBytes::<AnyEndian>::minimal_parse(data) {
        Ok(file) => Ok(file.section_headers().map(|t| t.iter().map(|s| Section {
            sh_name: s.sh_name, sh_type: s.sh_type, sh_flags: s.sh_flags, sh_addr: s.sh_addr,
            sh_offset: s.sh_offset, sh_size: s.sh_size, sh_link: s.sh_link, sh_info: s.sh_info,
            sh_addralign: s.sh_addralign, sh_entsize: s.sh_entsize,
        }).collect())),
        Err(_) => Err(()),
    }
}

/// The relocations of section `sh` of `data`: `minimal_parse`, then
/// `section_data_as_relas`, each relocation taken field by field.
#[verifier::external_body]
pub(crate) fn read_relas(data: &[u8], sh: &Section) -> (r: Result<Vec<Rela>, ()>)
    ensures
        !elf_parses(data@) ==> r is Err,
        elf_parses(data@) ==> (r is Ok <==> elf_relas(data@, *sh) is Some),
        r matches Ok(v) ==> elf_relas(data@, *sh) == Some(v@),
{
    let hdr = elf::section::SectionHeader {
        sh_name: sh.sh_name, sh_type: sh.sh_type, sh_flags: sh.sh_flags, sh_addr: sh.sh_addr,
        sh_offset: sh.sh_offset, sh_size: sh.sh_size, sh_link: sh.sh_link, sh_info: sh.sh_info,
        sh_addralign: sh.sh_addralign, sh_entsize: sh.sh_entsize,
    };
    match ElfBytes::<AnyEndian>::minimal_parse(data) {
        Ok(file) => match file.section_data_as_relas(&hdr) {
            Ok(it) => Ok(it.map(|x| Rela {
                r_offset: x.r_offset, r_sym: x.r_sym, r_type: x.r_type, r_addend: x.r_addend,
            }).collect()),
            Err(_) => Err(()),
        },
        Err(_) => Err(()),
    }
}

/// The value of dynamic symbol `index` of `data`: `minimal_parse`, then
/// `dynamic_symbol_table`, then `SymbolTable::get`, keeping `st_value`.
#[verifier::external_body]
pub(crate) fn read_symbol_value(data: &[u8], index: u32) -> (r: Result<Option<u64>, ()>)
    ensures
        !elf_parses(data@) ==> r is Err,
        elf_parses(data@) ==> r == elf_symbol_value(data@, index),
{
    match ElfBytes::<AnyEndian>::minimal_parse(data) {
        Ok(file) => match file.dynamic_symbol_table() {
            Ok(Some((symbols, _))) => match symbols.get(index as usize) {
                Ok(sym) => Ok(Some(sym.st_value)),
                Err(_) => Err(()),
            },
            Ok(None) => Ok(None),
            Err(_) => Err(()),
        },
        Err(_) => Err(()),
    }
}

} // verus!
