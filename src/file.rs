//! A simulated file that must be opened before it can be read, and whose
//! opening and closing may, rarely, be interrupted.
use vstd::prelude::*;
use vstd::slice::slice_to_vec;
use rand::Rng;

verus! {

/// Whether a file is open for reading.
#[derive(Debug, Clone, Copy, PartialEq, Eq, Structural)]
pub enum FileState {
    Open,
    Closed,
}

/// A named file and its contents.
#[derive(Debug)]
pub struct File {
    pub name: String,
    pub data: Vec<u8>,
    pub state: FileState,
}

/// Odds against an interrupted open: one in this many.
pub const OPEN_ODDS: u32 = 10_000;

/// Odds against an interrupted close: one in this many.
pub const CLOSE_ODDS: u32 = 100_000;

/// Relies on `rand::Rng::gen_ratio(1, denominator)` on the thread-local
/// generator: a random outcome, true about once in `denominator` calls. It
/// panics on a zero denominator, which `requires` rules out.
#[verifier::external_body]
fn one_in(denominator: u32) -> (r: bool)
    requires
        denominator >= 1,
{
    rand::thread_rng().gen_ratio(1, denominator)
}

impl FileState {
    /// The state's name in capitals.
    pub fn label(&self) -> (r: &'static str)
        ensures
            r@ == (match self {
                FileState::Open => "OPEN"@,
                FileState::Closed => "CLOSED"@,
            }),
    {
        match self {
            FileState::Open => "OPEN",
            FileState::Closed => "CLOSED",
        }
    }
}

impl File {
    /// A new, empty and closed file.
    pub fn new(name: &str) -> (r: File)
        ensures
            r.name@ == name@,
            r.data@ == Seq::<u8>::empty(),
            r.state == FileState::Closed,
    {
        File { name: name.to_owned(), data: Vec::new(), state: FileState::Closed }
    }

    /// A new closed file holding a copy of `data`.
    pub fn new_with_data(name: &str, data: &Vec<u8>) -> (r: File)
        ensures
            r.name@ == name@,
            r.data@ == data@,
            r.state == FileState::Closed,
    {
        let mut file = File::new(name);
        file.data = slice_to_vec(data.as_slice());
        file
    }

    /// Appends the file's contents to `save_to` and returns how many bytes
    /// were read; a file that is not open cannot be read.
    pub fn read(self: &File, save_to: &mut Vec<u8>) -> (r: Result<usize, String>)
        ensures
            self.state == FileState::Open ==> r == Ok::<usize, String>(self.data@.len() as usize)
                && final(save_to)@ == old(save_to)@ + self.data@,
            self.state != FileState::Open ==> (r matches Err(e) && e@
                == "File must be open for reading"@) && final(save_to)@ == old(save_to)@,
    {
        if self.state != FileState::Open {
            return Err("File must be open for reading".to_owned());
        }
        let read_length = self.data.len();
        save_to.extend_from_slice(self.data.as_slice());
        assert(save_to@ =~= old(save_to)@ + self.data@);
        Ok(read_length)
    }
}

/// Opens the file, unless a signal interrupts the call.
pub fn open_file(file: File) -> (r: Result<File, String>)
    ensures
        match r {
            Ok(f) => f.state == FileState::Open && f.name == file.name && f.data == file.data,
            Err(e) => e@ == "Interrupted by signal!"@,
        },
{
    if one_in(OPEN_ODDS) {
        return Err("Interrupted by signal!".to_owned());
    }
    let mut file = file;
    file.state = FileState::Open;
    Ok(file)
}

/// Closes the file, unless a signal interrupts the call.
pub fn close_file(file: File) -> (r: Result<File, String>)
    ensures
        match r {
            Ok(f) => f.state == FileState::Closed && f.name == file.name && f.data == file.data,
            Err(e) => e@ == "Interrupted by signal!"@,
        },
{
    if one_in(CLOSE_ODDS) {
        return Err("Interrupted by signal!".to_owned());
    }
    let mut file = file;
    file.state = FileState::Closed;
    Ok(file)
}

} // verus!
