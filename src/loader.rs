use vstd::prelude::*;

verus! {

#[verifier::external_type_specification]
#[verifier::external_body]
pub struct ExMmapMut(memmap2::MmapMut);

#[verifier::external_type_specification]
#[verifier::external_body]
pub struct ExMmap(memmap2::Mmap);

#[verifier::external_type_specification]
#[verifier::external_body]
pub struct ExIoError(std::io::Error);

/// The bytes a writable mapping holds.
pub uninterp spec fn mapped_bytes(m: memmap2::MmapMut) -> Seq<u8>;

/// The bytes an executable mapping holds.
pub uninterp spec fn exec_bytes(m: memmap2::Mmap) -> Seq<u8>;

/// Relies on memmap2::MmapMut::map_anon: an anonymous, readable and writable
/// mapping of `len` bytes.
#[verifier::external_body]
fn map_anon(len: usize) -> (r: Result<memmap2::MmapMut, std::io::Error>)
    ensures
        r matches Ok(m) ==> mapped_bytes(m).len() == len,
{
    memmap2::MmapMut::map_anon(len)
}

/// Relies on `<[u8]>::copy_from_slice` through memmap2::MmapMut's `DerefMut`:
/// the mapping then holds a copy of `code`.
#[verifier::external_body]
fn fill(m: &mut memmap2::MmapMut, code: &Vec<u8>)
    requires
        mapped_bytes(*old(m)).len() == code@.len(),
    ensures
        mapped_bytes(*final(m)) == code@,
{
    m.copy_from_slice(code.as_slice())
}

/// Relies on memmap2::MmapMut::make_exec: the same mapping, with its
/// protection changed to readable and executable.
#[verifier::external_body]
fn make_exec(m: memmap2::MmapMut) -> (r: Result<memmap2::Mmap, std::io::Error>)
    ensures
        r matches Ok(e) ==> exec_bytes(e) == mapped_bytes(m),
{
    m.make_exec()
}

/// Why machine code could not be made executable.
#[derive(Debug)]
pub enum LoadError {
    /// Creating the anonymous mapping failed.
    Mapping(std::io::Error),
    /// Changing the mapping's protection to executable failed.
    Protection(std::io::Error),
}

/// Machine code in an executable mapping, which lives as long as this value.
pub struct BFExecutable {
    source: memmap2::Mmap,
}

impl View for BFExecutable {
    type V = Seq<u8>;

    closed spec fn view(&self) -> Seq<u8> {
        exec_bytes(self.source)
    }
}

impl BFExecutable {
    /// Copies `byte_code` into a fresh anonymous mapping and makes it
    /// executable.
    pub fn make_executable(byte_code: &Vec<u8>) -> (r: Result<BFExecutable, LoadError>)
        ensures
            r matches Ok(e) ==> e@ == byte_code@,
    {
        let mut mem = match map_anon(byte_code.len()) {
            Ok(m) => m,
            Err(e) => {
                return Err(LoadError::Mapping(e));
            },
        };
        fill(&mut mem, byte_code);
        match make_exec(mem) {
            Ok(source) => Ok(BFExecutable { source }),
            Err(e) => Err(LoadError::Protection(e)),
        }
    }

    /// The executable mapping; its first byte is the entry point.
    pub fn mapping(&self) -> (r: &memmap2::Mmap)
        ensures
            exec_bytes(*r) == self@,
    {
        &self.source
    }
}

} // verus!
