use vstd::prelude::*;
use crate::error::{Errors, Result};
use crate::log_record::{ReadLogRecord, decode_log_record, spec_parse_record};

verus! {

/// The mathematical content of a data file: its numeric id and its bytes.
#[verifier::ext_equal]
pub struct FileView {
    pub id: u32,
    pub data: Seq<u8>,
}

/// One data file. The engine owns the file's full contents; the write offset
/// is always the byte length of those contents.
#[derive(Debug)]
pub struct DataFile {
    pub file_id: u32,
    pub data: Vec<u8>,
}

impl View for DataFile {
    type V = FileView;

    open spec fn view(&self) -> FileView {
        FileView { id: self.file_id, data: self.data@ }
    }
}

impl DataFile {
    /// A fresh, empty data file with the given id.
    pub fn new(file_id: u32) -> (r: Self)
        ensures
            r@.id == file_id,
            r@.data == Seq::<u8>::empty(),
    {
        DataFile { file_id, data: Vec::new() }
    }

    /// A data file whose bytes were read back from storage.
    pub fn from_contents(file_id: u32, data: Vec<u8>) -> (r: Self)
        ensures
            r@.id == file_id,
            r@.data == data@,
            r@.data.len() <= u64::MAX as nat,
    {
        let n = data.len();
        proof {
            assert(data@.len() == n as nat);
        }
        DataFile { file_id, data }
    }

    pub fn get_file_id(&self) -> (r: u32)
        ensures
            r == self@.id,
    {
        self.file_id
    }

    /// The tail offset: the number of bytes this file holds.
    pub fn get_write_off(&self) -> (r: u64)
        ensures
            r == self@.data.len(),
    {
        self.data.len() as u64
    }

    /// Append `buf` at the tail; returns the number of bytes written.
    pub fn write(&mut self, buf: &[u8]) -> (r: Result<usize>)
        ensures
            final(self)@.id == old(self)@.id,
            final(self)@.data == old(self)@.data + buf@,
            final(self)@.data.len() <= u64::MAX as nat,
            r == Ok::<usize, Errors>(buf@.len() as usize),
    {
        let ghost d0 = self.data@;
        let mut i: usize = 0;
        while i < buf.len()
            invariant
                i <= buf@.len(),
                self.data@ == d0 + buf@.subrange(0, i as int),
                self.file_id == old(self).file_id,
            decreases buf@.len() - i,
        {
            proof {
                assert(d0 + buf@.subrange(0, i + 1) =~= (d0 + buf@.subrange(0, i as int)).push(
                    buf@[i as int],
                ));
            }
            self.data.push(buf[i]);
            i = i + 1;
        }
        proof {
            assert(d0 + buf@.subrange(0, buf@.len() as int) =~= d0 + buf@);
        }
        let n = self.data.len();
        proof {
            assert(self.data@.len() == n as nat);
        }
        Ok(buf.len())
    }

    /// Decode the record stored at `offset`.
    pub fn read_log_record(&self, offset: u64) -> (r: Result<ReadLogRecord>)
        ensures
            match spec_parse_record(self@.data, offset as nat) {
                Some((rv, end)) => match r {
                    Ok(rr) => rr.record@ == rv && rr.size as int == end - offset,
                    Err(_) => false,
                },
                None => r == Err::<ReadLogRecord, Errors>(
                    if offset >= self@.data.len() {
                        Errors::ReadDataFileEOF
                    } else {
                        Errors::FailedToReadFromDataFile
                    },
                ),
            },
    {
        decode_log_record(&self.data, offset)
    }

    /// Force durability of all previously written bytes. The engine holds the
    /// authoritative contents in memory, so there is nothing to flush here;
    /// the I/O layer mirroring the file performs the real fsync.
    pub fn sync(&self) -> (r: Result<()>)
        ensures
            r == Ok::<(), Errors>(()),
    {
        Ok(())
    }

    /// The file's full contents, for the I/O layer that mirrors them.
    pub fn contents(&self) -> (r: &Vec<u8>)
        ensures
            r@ == self@.data,
    {
        &self.data
    }
}

} // verus!
