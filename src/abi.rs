use vstd::prelude::*;

verus! {

/// The table format version this engine reads.
pub const ENGINE_ABI_VERSION: u32 = 14;

/// Number of bytes in a serialized table header.
pub const HEADER_LEN: usize = 16;

/// Why a serialized table was refused.
#[derive(Debug, Clone, Copy, PartialEq, Eq)]
pub enum LoadError {
    /// Fewer bytes than a header needs.
    Truncated,
    /// The table was built for another engine version.
    VersionMismatch { found: u32, expected: u32 },
}

/// The fixed-format header in front of a compiled table.
#[derive(Debug, Clone, Copy, PartialEq, Eq)]
pub struct TableHeader {
    pub abi_version: u32,
    pub state_count: u32,
    pub symbol_count: u32,
    pub field_count: u32,
}

/// The little-endian 32-bit number stored at `at`.
pub open spec fn le_u32(b: Seq<u8>, at: int) -> int {
    b[at] as int + 256 * (b[at + 1] as int) + 65536 * (b[at + 2] as int) + 16777216 * (
    b[at + 3] as int)
}

/// Whether a table built for `found` may be used by an engine expecting `expected`.
pub fn abi_compatible(found: u32, expected: u32) -> (r: bool)
    ensures
        r == (found == expected),
{
    found == expected
}

/// Reads the little-endian 32-bit number stored at `at`.
pub fn read_u32_le(b: &Vec<u8>, at: usize) -> (r: u32)
    requires
        at + 4 <= b.len(),
    ensures
        r as int == le_u32(b@, at as int),
{
    let b0 = b[at] as u32;
    let b1 = b[at + 1] as u32;
    let b2 = b[at + 2] as u32;
    let b3 = b[at + 3] as u32;
    b0 + 256 * b1 + 65536 * b2 + 16777216 * b3
}

/// Reads a table header, refusing it before any use when its version is not `expected`.
pub fn load_header(bytes: &Vec<u8>, expected: u32) -> (r: Result<TableHeader, LoadError>)
    ensures
        bytes@.len() < HEADER_LEN ==> r == Err::<TableHeader, LoadError>(LoadError::Truncated),
        bytes@.len() >= HEADER_LEN && le_u32(bytes@, 0) != expected ==> r == Err::<
            TableHeader,
            LoadError,
        >(LoadError::VersionMismatch { found: le_u32(bytes@, 0) as u32, expected }),
        bytes@.len() >= HEADER_LEN && le_u32(bytes@, 0) == expected ==> r == Ok::<
            TableHeader,
            LoadError,
        >(
            (TableHeader {
                abi_version: expected,
                state_count: le_u32(bytes@, 4) as u32,
                symbol_count: le_u32(bytes@, 8) as u32,
                field_count: le_u32(bytes@, 12) as u32,
            }),
        ),
{
    if bytes.len() < HEADER_LEN {
        return Err(LoadError::Truncated);
    }
    let found = read_u32_le(bytes, 0);
    if !abi_compatible(found, expected) {
        return Err(LoadError::VersionMismatch { found, expected });
    }
    Ok(
        TableHeader {
            abi_version: found,
            state_count: read_u32_le(bytes, 4),
            symbol_count: read_u32_le(bytes, 8),
            field_count: read_u32_le(bytes, 12),
        },
    )
}

} // verus!
