use vstd::prelude::*;
use crate::data_file::{DataFile, FileView};
use crate::error::{Errors, Result};
use crate::index::{Indexer, KeyDir, new_indexer};
use crate::log_record::{
    LogRecord, LogRecordPos, LogRecordType, RecordView, copy_range, record_encoding,
    spec_parse_record, lemma_parse_record_bounds, lemma_parse_record_extension,
    lemma_record_roundtrip_at,
};
use crate::options::Options;

verus! {

// ---------------------------------------------------------------------------
// Replay: the meaning of a directory of data files
// ---------------------------------------------------------------------------

/// One record found while scanning a file: where it starts, what it holds,
/// and where the next record starts.
#[verifier::ext_equal]
pub struct RecEntry {
    pub off: nat,
    pub rec: RecordView,
    pub end: nat,
}

/// All records of a file from `off` to its end, in scan order; `None` when
/// the bytes from `off` do not decompose into records exactly.
pub open spec fn spec_records(s: Seq<u8>, off: nat) -> Option<Seq<RecEntry>>
    decreases s.len() - off,
{
    if off >= s.len() {
        Some(Seq::empty())
    } else {
        match spec_parse_record(s, off) {
            None => None,
            Some((rv, end)) => {
                // a parsed record always satisfies these bounds; the guard
                // only makes termination evident
                if end <= off || end > s.len() {
                    None
                } else {
                    match spec_records(s, end) {
                        None => None,
                        Some(rest) => Some(seq![RecEntry { off, rec: rv, end }] + rest),
                    }
                }
            },
        }
    }
}

/// What a key maps to while replaying: the position of its latest record and
/// the value that record carries.
#[verifier::ext_equal]
pub struct LiveEntry {
    pub pos: LogRecordPos,
    pub value: Seq<u8>,
}

/// Applying one scanned record to the live map: a normal record installs the
/// key, a tombstone removes it.
pub open spec fn apply_one(
    m: Map<Seq<u8>, LiveEntry>,
    fid: u32,
    e: RecEntry,
) -> Map<Seq<u8>, LiveEntry> {
    if e.rec.rec_type == LogRecordType::NORMAL {
        m.insert(
            e.rec.key,
            LiveEntry { pos: LogRecordPos { file_id: fid, offset: e.off as u64 }, value: e.rec.value },
        )
    } else {
        m.remove(e.rec.key)
    }
}

/// Applying a file's scanned records in order.
pub open spec fn apply_recs(
    m: Map<Seq<u8>, LiveEntry>,
    fid: u32,
    recs: Seq<RecEntry>,
) -> Map<Seq<u8>, LiveEntry>
    decreases recs.len(),
{
    if recs.len() == 0 {
        m
    } else {
        apply_one(apply_recs(m, fid, recs.drop_last()), fid, recs.last())
    }
}

/// Replaying one whole file over an incoming live map.
pub open spec fn replay_file(m: Map<Seq<u8>, LiveEntry>, f: FileView) -> Option<
    Map<Seq<u8>, LiveEntry>,
> {
    match spec_records(f.data, 0) {
        None => None,
        Some(recs) => Some(apply_recs(m, f.id, recs)),
    }
}

/// Replaying a sequence of files, in order.
pub open spec fn replay_files(m: Map<Seq<u8>, LiveEntry>, files: Seq<FileView>) -> Option<
    Map<Seq<u8>, LiveEntry>,
> decreases files.len(),
{
    if files.len() == 0 {
        Some(m)
    } else {
        match replay_files(m, files.drop_last()) {
            None => None,
            Some(m1) => replay_file(m1, files.last()),
        }
    }
}

/// Appending one encoded record to a file extends its scan by that record.
proof fn lemma_records_append(s: Seq<u8>, r: RecordView, off: nat)
    requires
        r.key.len() <= u64::MAX as nat,
        r.value.len() <= u64::MAX as nat,
        off <= s.len(),
        spec_records(s, off) is Some,
    ensures
        spec_records(s + record_encoding(r), off) is Some,
        spec_records(s + record_encoding(r), off)->Some_0 =~~= spec_records(s, off)->Some_0.push(
            RecEntry { off: s.len(), rec: r, end: s.len() + record_encoding(r).len() },
        ),
    decreases s.len() - off,
{
    let s2 = s + record_encoding(r);
    let e = RecEntry { off: s.len(), rec: r, end: s.len() + record_encoding(r).len() };
    if off == s.len() {
        assert(s2.subrange(off as int, off + record_encoding(r).len() as int) =~= record_encoding(
            r,
        ));
        lemma_record_roundtrip_at(s2, off, r);
        assert(spec_records(s2, e.end) == Some(Seq::<RecEntry>::empty()));
        assert(spec_records(s2, off)->Some_0 =~~= Seq::empty().push(e));
    } else {
        let (rv0, end0) = spec_parse_record(s, off)->Some_0;
        lemma_parse_record_bounds(s, off);
        assert(s2.subrange(off as int, end0 as int) =~= s.subrange(off as int, end0 as int));
        lemma_parse_record_extension(s, s2, off);
        lemma_records_append(s, r, end0);
        assert(spec_records(s2, off)->Some_0 =~~= spec_records(s, off)->Some_0.push(e));
    }
}

/// A replay fails exactly when some file's bytes fail to scan.
proof fn lemma_replay_files_some(m: Map<Seq<u8>, LiveEntry>, files: Seq<FileView>)
    ensures
        replay_files(m, files) is Some <==> (forall|i: int|
            0 <= i < files.len() ==> spec_records(#[trigger] files[i].data, 0) is Some),
    decreases files.len(),
{
    if files.len() > 0 {
        lemma_replay_files_some(m, files.drop_last());
        if forall|i: int| 0 <= i < files.len() ==> spec_records(#[trigger] files[i].data, 0) is Some {
            assert forall|i: int| 0 <= i < files.drop_last().len() implies spec_records(
                #[trigger] files.drop_last()[i].data,
                0,
            ) is Some by {
                assert(files.drop_last()[i] == files[i]);
            }
        } else {
            let i = choose|i: int| 0 <= i < files.len() && !(spec_records(
                #[trigger] files[i].data,
                0,
            ) is Some);
            if i < files.len() - 1 {
                assert(files.drop_last()[i] == files[i]);
            }
        }
    }
}


/// The contents of the file with id `fid`, searched from the newest file
/// backwards.
pub open spec fn file_data_of(files: Seq<FileView>, fid: u32) -> Option<Seq<u8>>
    decreases files.len(),
{
    if files.len() == 0 {
        None
    } else if files.last().id == fid {
        Some(files.last().data)
    } else {
        file_data_of(files.drop_last(), fid)
    }
}

proof fn lemma_file_data_of_exists(files: Seq<FileView>, fid: u32)
    requires
        file_data_of(files, fid) is Some,
    ensures
        exists|i: int|
            0 <= i < files.len() && (#[trigger] files[i]).id == fid && files[i].data
                == file_data_of(files, fid)->Some_0,
    decreases files.len(),
{
    if files.last().id == fid {
        assert(files[files.len() - 1].id == fid);
    } else {
        lemma_file_data_of_exists(files.drop_last(), fid);
        let i = choose|i: int|
            0 <= i < files.drop_last().len() && (#[trigger] files.drop_last()[i]).id == fid
                && files.drop_last()[i].data == file_data_of(files.drop_last(), fid)->Some_0;
        assert(files[i] == files.drop_last()[i]);
    }
}

proof fn lemma_file_data_unique(files: Seq<FileView>, fid: u32, i: int)
    requires
        forall|a: int, b: int|
            0 <= a < b < files.len() ==> (#[trigger] files[a]).id < (#[trigger] files[b]).id,
        0 <= i < files.len(),
        files[i].id == fid,
    ensures
        file_data_of(files, fid) == Some(files[i].data),
    decreases files.len(),
{
    if i == files.len() - 1 {
    } else {
        assert(files[i].id < files[files.len() - 1].id);
        assert forall|a: int, b: int|
            0 <= a < b < files.drop_last().len() implies (#[trigger] files.drop_last()[a]).id < (
        #[trigger] files.drop_last()[b]).id by {
            assert(files.drop_last()[a] == files[a]);
            assert(files.drop_last()[b] == files[b]);
        }
        assert(files.drop_last()[i] == files[i]);
        lemma_file_data_unique(files.drop_last(), fid, i);
    }
}

/// Every scanned record parses at its recorded offset.
proof fn lemma_records_parse(s: Seq<u8>, off: nat)
    requires
        spec_records(s, off) is Some,
    ensures
        forall|j: int|
            0 <= j < spec_records(s, off)->Some_0.len() ==> spec_parse_record(
                s,
                (#[trigger] spec_records(s, off)->Some_0[j]).off,
            ) == Some((spec_records(s, off)->Some_0[j].rec, spec_records(s, off)->Some_0[j].end)),
    decreases s.len() - off,
{
    if off < s.len() {
        let (rv, end) = spec_parse_record(s, off)->Some_0;
        lemma_records_parse(s, end);
        let recs = spec_records(s, off)->Some_0;
        let rest = spec_records(s, end)->Some_0;
        assert forall|j: int| 0 <= j < recs.len() implies spec_parse_record(
            s,
            (#[trigger] recs[j]).off,
        ) == Some((recs[j].rec, recs[j].end)) by {
            if j > 0 {
                assert(recs[j] == rest[j - 1]);
            }
        }
    }
}

/// A live entry is backed by a normal record for its key, decodable in the
/// file its position names.
pub open spec fn live_resolved(files: Seq<FileView>, k: Seq<u8>, le: LiveEntry) -> bool {
    &&& file_data_of(files, le.pos.file_id) is Some
    &&& ({
        let d = file_data_of(files, le.pos.file_id)->Some_0;
        &&& spec_parse_record(d, le.pos.offset as nat) is Some
        &&& spec_parse_record(d, le.pos.offset as nat)->Some_0.0.rec_type == LogRecordType::NORMAL
        &&& spec_parse_record(d, le.pos.offset as nat)->Some_0.0.key == k
        &&& spec_parse_record(d, le.pos.offset as nat)->Some_0.0.value == le.value
    })
}

proof fn lemma_apply_recs_resolved(
    m: Map<Seq<u8>, LiveEntry>,
    f: FileView,
    recs: Seq<RecEntry>,
    files: Seq<FileView>,
)
    requires
        file_data_of(files, f.id) == Some(f.data),
        forall|j: int|
            0 <= j < recs.len() ==> spec_parse_record(f.data, (#[trigger] recs[j]).off) == Some(
                (recs[j].rec, recs[j].end),
            ),
        f.data.len() <= u64::MAX as nat,
        forall|k: Seq<u8>| #[trigger] m.dom().contains(k) ==> live_resolved(files, k, m[k]),
    ensures
        forall|k: Seq<u8>| #[trigger]
            apply_recs(m, f.id, recs).dom().contains(k) ==> live_resolved(
                files,
                k,
                apply_recs(m, f.id, recs)[k],
            ),
    decreases recs.len(),
{
    if recs.len() > 0 {
        assert forall|j: int| 0 <= j < recs.drop_last().len() implies spec_parse_record(
            f.data,
            (#[trigger] recs.drop_last()[j]).off,
        ) == Some((recs.drop_last()[j].rec, recs.drop_last()[j].end)) by {
            assert(recs.drop_last()[j] == recs[j]);
        }
        lemma_apply_recs_resolved(m, f, recs.drop_last(), files);
        let prev = apply_recs(m, f.id, recs.drop_last());
        let e = recs.last();
        assert(recs[recs.len() - 1] == e);
        assert(spec_parse_record(f.data, e.off) is Some);
        assert(e.off + 5 <= f.data.len());
        assert((e.off as u64) as nat == e.off);
    }
}

/// Everything a clean replay installs in the live map is backed by a
/// decodable normal record at its recorded position.
proof fn lemma_replay_resolved(files: Seq<FileView>)
    requires
        replay_files(Map::<Seq<u8>, LiveEntry>::empty(), files) is Some,
        forall|a: int, b: int|
            0 <= a < b < files.len() ==> (#[trigger] files[a]).id < (#[trigger] files[b]).id,
        forall|i: int|
            0 <= i < files.len() ==> (#[trigger] files[i]).data.len() <= u64::MAX as nat,
    ensures
        forall|k: Seq<u8>| #[trigger]
            replay_files(Map::<Seq<u8>, LiveEntry>::empty(), files)->Some_0.dom().contains(k)
                ==> live_resolved(
                files,
                k,
                replay_files(Map::<Seq<u8>, LiveEntry>::empty(), files)->Some_0[k],
            ),
    decreases files.len(),
{
    if files.len() > 0 {
        let prefix = files.drop_last();
        assert forall|a: int, b: int| 0 <= a < b < prefix.len() implies (
        #[trigger] prefix[a]).id < (#[trigger] prefix[b]).id by {
            assert(prefix[a] == files[a]);
            assert(prefix[b] == files[b]);
        }
        assert forall|i: int| 0 <= i < prefix.len() implies (#[trigger] prefix[i]).data.len()
            <= u64::MAX as nat by {
            assert(prefix[i] == files[i]);
        }
        lemma_replay_resolved(prefix);
        let m1 = replay_files(Map::<Seq<u8>, LiveEntry>::empty(), prefix)->Some_0;
        // entries resolved against the prefix stay resolved: their file ids
        // are all below the new last file's id
        assert forall|k: Seq<u8>| #[trigger] m1.dom().contains(k) implies live_resolved(
            files,
            k,
            m1[k],
        ) by {
            lemma_file_data_of_exists(prefix, m1[k].pos.file_id);
            let i = choose|i: int|
                0 <= i < prefix.len() && (#[trigger] prefix[i]).id == m1[k].pos.file_id
                    && prefix[i].data == file_data_of(prefix, m1[k].pos.file_id)->Some_0;
            assert(files[i] == prefix[i]);
            assert(files[i].id < files.last().id);
            assert(file_data_of(files, m1[k].pos.file_id) == file_data_of(
                prefix,
                m1[k].pos.file_id,
            ));
        }
        let f = files.last();
        assert(files[files.len() - 1] == f);
        lemma_file_data_unique(files, f.id, files.len() - 1);
        lemma_records_parse(f.data, 0);
        lemma_apply_recs_resolved(m1, f, spec_records(f.data, 0)->Some_0, files);
    }
}

// ---------------------------------------------------------------------------
// File names: `<decimal-id>.data`
// ---------------------------------------------------------------------------

/// The bytes of the `.data` suffix.
pub open spec fn data_suffix() -> Seq<u8> {
    seq![46u8, 100u8, 97u8, 116u8, 97u8]
}

/// Whether a directory entry's name marks it as a data file.
pub open spec fn is_data_file_name(name: Seq<u8>) -> bool {
    name.len() >= 5 && name.subrange(name.len() - 5, name.len() as int) == data_suffix()
}

/// The position of the first `.` at or after `i`.
pub open spec fn dot_pos(name: Seq<u8>, i: nat) -> Option<nat>
    decreases name.len() - i,
{
    if i >= name.len() {
        None
    } else if name[i as int] == 46 {
        Some(i)
    } else {
        dot_pos(name, i + 1)
    }
}

/// The value of the decimal digits `name[i..end]`; `None` if any byte is not
/// a digit.
pub open spec fn digits_val(name: Seq<u8>, i: nat, end: nat) -> Option<nat>
    decreases end - i,
{
    if end <= i {
        Some(0)
    } else {
        match digits_val(name, i, (end - 1) as nat) {
            None => None,
            Some(v) => {
                let b = name[end - 1];
                if 48 <= b <= 57 {
                    Some(v * 10 + ((b - 48) as nat))
                } else {
                    None
                }
            },
        }
    }
}

/// The file id encoded in a name: the decimal prefix before the first `.`,
/// which must be non-empty, all digits, and fit in 32 bits.
pub open spec fn spec_parse_file_id(name: Seq<u8>) -> Option<u32> {
    match dot_pos(name, 0) {
        None => None,
        Some(d) => if d == 0 {
            None
        } else {
            match digits_val(name, 0, d) {
                None => None,
                Some(v) => if v > u32::MAX as nat {
                    None
                } else {
                    Some(v as u32)
                },
            }
        },
    }
}

/// Longer digit runs only grow the value.
proof fn lemma_digits_val_monotone(name: Seq<u8>, j: nat, end: nat)
    requires
        j <= end,
        digits_val(name, 0, end) is Some,
    ensures
        digits_val(name, 0, j) is Some,
        digits_val(name, 0, j)->Some_0 <= digits_val(name, 0, end)->Some_0,
    decreases end - j,
{
    if j < end {
        lemma_digits_val_monotone(name, j, (end - 1) as nat);
        let v = digits_val(name, 0, (end - 1) as nat)->Some_0;
        assert(v * 10 >= v) by (nonlinear_arith);
    }
}

/// Whether a directory entry's name ends in `.data`.
fn ends_with_data(name: &Vec<u8>) -> (r: bool)
    ensures
        r == is_data_file_name(name@),
{
    let n = name.len();
    if n < 5 {
        return false;
    }
    let r = name[n - 5] == 46 && name[n - 4] == 100 && name[n - 3] == 97 && name[n - 2] == 116
        && name[n - 1] == 97;
    proof {
        if r {
            assert(name@.subrange(name@.len() - 5, name@.len() as int) =~= data_suffix());
        } else {
            if name@.subrange(name@.len() - 5, name@.len() as int) == data_suffix() {
                assert(name@[name@.len() - 5] == data_suffix()[0]);
                assert(name@[name@.len() - 4] == data_suffix()[1]);
                assert(name@[name@.len() - 3] == data_suffix()[2]);
                assert(name@[name@.len() - 2] == data_suffix()[3]);
                assert(name@[name@.len() - 1] == data_suffix()[4]);
            }
        }
    }
    r
}

/// The numeric prefix of a data file's name.
fn parse_file_id(name: &Vec<u8>) -> (r: Option<u32>)
    ensures
        r == spec_parse_file_id(name@),
{
    // find the first dot
    let mut d: usize = 0;
    let mut found = false;
    while d < name.len() && name[d] != 46
        invariant
            d <= name@.len(),
            dot_pos(name@, 0) == dot_pos(name@, d as nat),
        decreases name@.len() - d,
    {
        d = d + 1;
    }
    if d == name.len() {
        return None;
    }
    if d == 0 {
        return None;
    }
    // accumulate the decimal digits before it
    let mut acc: u32 = 0;
    let mut j: usize = 0;
    while j < d
        invariant
            j <= d < name@.len(),
            name@[d as int] == 46,
            dot_pos(name@, 0) == Some(d as nat),
            digits_val(name@, 0, j as nat) == Some(acc as nat),
        decreases d - j,
    {
        let b = name[j];
        if b < 48 || b > 57 {
            proof {
                lemma_digits_none_extends(name@, (j + 1) as nat, d as nat);
            }
            return None;
        }
        let dig = (b - 48) as u32;
        if acc > (u32::MAX - dig) / 10 {
            proof {
                let q = ((u32::MAX - dig) / 10) as nat;
                assert(((u32::MAX - dig) as nat) < 10 * q + 10) by {
                    vstd::arithmetic::div_mod::lemma_fundamental_div_mod(
                        (u32::MAX - dig) as int,
                        10,
                    );
                }
                assert((acc as nat) * 10 >= (q + 1) * 10) by (nonlinear_arith)
                    requires
                        acc as nat >= q + 1,
                ;
                assert(digits_val(name@, 0, (j + 1) as nat) == Some(
                    (acc as nat) * 10 + (dig as nat),
                ));
                if digits_val(name@, 0, d as nat) is Some {
                    lemma_digits_val_monotone(name@, (j + 1) as nat, d as nat);
                }
            }
            return None;
        }
        proof {
            let q = ((u32::MAX - dig) / 10) as nat;
            assert(10 * q <= (u32::MAX - dig) as nat) by {
                vstd::arithmetic::div_mod::lemma_fundamental_div_mod((u32::MAX - dig) as int, 10);
            }
            assert((acc as nat) * 10 <= 10 * q) by (nonlinear_arith)
                requires
                    acc as nat <= q,
            ;
        }
        acc = acc * 10 + dig;
        j = j + 1;
    }
    Some(acc)
}

/// Once a non-digit has been seen, the digit run's value is `None`.
proof fn lemma_digits_none_extends(name: Seq<u8>, j: nat, end: nat)
    requires
        j <= end,
        digits_val(name, 0, j) is None,
    ensures
        digits_val(name, 0, end) is None,
    decreases end - j,
{
    if j < end {
        lemma_digits_none_extends(name, j + 1, end);
    }
}

/// Reject an unusable configuration: an empty directory path or a zero file
/// size threshold.
pub fn check_options(opts: &Options) -> (r: Option<Errors>)
    ensures
        r == if opts.dir_path@.len() == 0 {
            Some(Errors::DirPathIsEmpty)
        } else if opts.data_file_size == 0 {
            Some(Errors::DataFileSizeTooSmall)
        } else {
            None::<Errors>
        },
{
    if opts.dir_path.as_str().is_empty() {
        return Some(Errors::DirPathIsEmpty);
    }
    if opts.data_file_size == 0 {
        return Some(Errors::DataFileSizeTooSmall);
    }
    None
}



// ---------------------------------------------------------------------------
// Opening a directory
// ---------------------------------------------------------------------------

/// One directory entry handed to [`Engine::open`]: a file's name and its
/// full contents.
#[derive(Debug)]
pub struct DirEntry {
    pub name: Vec<u8>,
    pub data: Vec<u8>,
}

/// Whether a configuration passes [`check_options`].
pub open spec fn opts_valid(opts: Options) -> bool {
    opts.dir_path@.len() > 0 && opts.data_file_size > 0
}

/// Every data file name in the directory carries a readable id, and no id
/// occurs twice.
pub open spec fn entries_wf(entries: Seq<DirEntry>) -> bool {
    &&& forall|i: int|
        0 <= i < entries.len() && is_data_file_name((#[trigger] entries[i]).name@)
            ==> spec_parse_file_id(entries[i].name@) is Some
    &&& forall|i: int, j: int|
        0 <= i < j < entries.len() && is_data_file_name((#[trigger] entries[i]).name@)
            && is_data_file_name((#[trigger] entries[j]).name@) ==> spec_parse_file_id(
            entries[i].name@,
        ) != spec_parse_file_id(entries[j].name@)
}

/// Every data file's contents decompose into whole records.
pub open spec fn entries_decode(entries: Seq<DirEntry>) -> bool {
    forall|i: int|
        0 <= i < entries.len() && is_data_file_name((#[trigger] entries[i]).name@)
            ==> spec_records(entries[i].data@, 0) is Some
}

/// Whether the directory holds any data file at all.
pub open spec fn has_data_entries(entries: Seq<DirEntry>) -> bool {
    exists|i: int| 0 <= i < entries.len() && is_data_file_name((#[trigger] entries[i]).name@)
}

/// Whether some file in the sequence has this id and these contents.
pub open spec fn has_file(files: Seq<FileView>, fid: u32, data: Seq<u8>) -> bool {
    exists|j: int|
        0 <= j < files.len() && (#[trigger] files[j]).id == fid && files[j].data == data
}

/// Insert a data file into a list kept ascending by id; refuses a duplicate
/// id.
fn insert_sorted(files: &mut Vec<DataFile>, nf: DataFile) -> (ok: bool)
    requires
        forall|a: int, b: int|
            0 <= a < b < old(files)@.len() ==> (#[trigger] old(files)@[a])@.id < (
            #[trigger] old(files)@[b])@.id,
    ensures
        forall|a: int, b: int|
            0 <= a < b < final(files)@.len() ==> (#[trigger] final(files)@[a])@.id < (
            #[trigger] final(files)@[b])@.id,
        ok == (forall|j: int| 0 <= j < old(files)@.len() ==> (#[trigger] old(files)@[j])@.id
            != nf@.id),
        ok ==> exists|p: int|
            0 <= p <= old(files)@.len() && final(files)@ == old(files)@.insert(p, nf),
        !ok ==> final(files)@ == old(files)@,
{
    let mut j: usize = 0;
    while j < files.len() && files[j].get_file_id() < nf.get_file_id()
        invariant
            j <= files@.len(),
            forall|a: int| 0 <= a < j ==> (#[trigger] files@[a])@.id < nf@.id,
            files@ == old(files)@,
        decreases files@.len() - j,
    {
        j = j + 1;
    }
    if j < files.len() && files[j].get_file_id() == nf.get_file_id() {
        return false;
    }
    proof {
        assert forall|x: int| 0 <= x < files@.len() implies (#[trigger] files@[x])@.id != nf@.id by {
            if x >= j {
                assert(files@[j as int]@.id <= files@[x]@.id);
            }
        }
    }
    files.insert(j, nf);
    proof {
        assert forall|a: int, b: int| 0 <= a < b < files@.len() implies (
        #[trigger] files@[a])@.id < (#[trigger] files@[b])@.id by {
            let s0 = old(files)@;
            if b < j {
                assert(files@[a] == s0[a] && files@[b] == s0[b]);
            } else if a > j {
                assert(files@[a] == s0[a - 1] && files@[b] == s0[b - 1]);
            } else if a < j && b == j {
                assert(files@[a] == s0[a]);
            } else if a == j && b > j {
                assert(files@[b] == s0[b - 1]);
                assert(s0[j as int]@.id <= s0[b - 1]@.id);
            } else if a < j && b > j {
                assert(files@[a] == s0[a] && files@[b] == s0[b - 1]);
                assert(s0[j as int]@.id <= s0[b - 1]@.id);
            }
        }
    }
    true
}

// ---------------------------------------------------------------------------
// The engine
// ---------------------------------------------------------------------------

/// The length of the encoding of a record with the given key, value and type.
pub open spec fn record_len(key: Seq<u8>, value: Seq<u8>, t: LogRecordType) -> nat {
    record_encoding(RecordView { key, value, rec_type: t }).len()
}

/// Whether an append of `rec_len` bytes rotates the active file first: the
/// file already holds something and the record would push it past the
/// threshold. An empty active file always accepts the record, however large,
/// so that oversized records make progress.
pub open spec fn needs_rotation(active_len: nat, rec_len: nat, threshold: u64) -> bool {
    active_len > 0 && active_len + rec_len > threshold
}


/// Scan one file from offset 0, feeding each record into the index; `m_prev`
/// is the live map the files before this one replayed to.
fn load_file(
    index: &mut KeyDir,
    file: &DataFile,
    Ghost(m_prev): Ghost<Map<Seq<u8>, LiveEntry>>,
) -> (r: Result<()>)
    requires
        old(index).valid(),
        file@.data.len() <= u64::MAX as nat,
        old(index).mapping().dom() == m_prev.dom(),
        forall|k: Seq<u8>| #[trigger]
            m_prev.dom().contains(k) ==> old(index).mapping()[k] == m_prev[k].pos,
    ensures
        final(index).valid(),
        match r {
            Ok(_) => {
                &&& replay_file(m_prev, file@) is Some
                &&& final(index).mapping().dom() == replay_file(m_prev, file@)->Some_0.dom()
                &&& forall|k: Seq<u8>| #[trigger]
                    replay_file(m_prev, file@)->Some_0.dom().contains(k)
                        ==> final(index).mapping()[k] == replay_file(m_prev, file@)->Some_0[k].pos
            },
            Err(e) => e == Errors::DataDirectoryCorrupted && !(spec_records(file@.data, 0)
                is Some),
        },
{
    let fid = file.get_file_id();
    let mut cursor: u64 = 0;
    let ghost data = file@.data;
    let ghost mut done: Seq<RecEntry> = Seq::empty();
    let ghost mut m_mid: Map<Seq<u8>, LiveEntry> = m_prev;
    loop
        invariant
            index.valid(),
            cursor <= data.len() <= u64::MAX as nat,
            data == file@.data,
            fid == file@.id,
            spec_records(data, 0) == (match spec_records(data, cursor as nat) {
                Some(rest) => Some(done + rest),
                None => None::<Seq<RecEntry>>,
            }),
            m_mid == apply_recs(m_prev, fid, done),
            index.mapping().dom() == m_mid.dom(),
            forall|k: Seq<u8>| #[trigger]
                m_mid.dom().contains(k) ==> index.mapping()[k] == m_mid[k].pos,
        decreases data.len() - cursor,
    {
        let rr = match file.read_log_record(cursor) {
            Ok(rr) => rr,
            Err(e) => {
                if matches!(e, Errors::ReadDataFileEOF) {
                    proof {
                        assert(cursor as nat == data.len());
                        assert(spec_records(data, cursor as nat) == Some(Seq::<RecEntry>::empty()));
                        assert(done + Seq::<RecEntry>::empty() =~= done);
                        assert(spec_records(data, 0) == Some(done));
                    }
                    return Ok(());
                }
                proof {
                    assert(spec_parse_record(data, cursor as nat) is None);
                    assert((cursor as nat) < data.len());
                    assert(spec_records(data, cursor as nat) is None);
                    assert(spec_records(data, 0) is None);
                }
                return Err(Errors::DataDirectoryCorrupted);
            },
        };
        let ghost (rv, endp) = spec_parse_record(data, cursor as nat)->Some_0;
        proof {
            lemma_parse_record_bounds(data, cursor as nat);
        }
        let ghost e = RecEntry { off: cursor as nat, rec: rv, end: endp };
        let pos = LogRecordPos::new(fid, cursor);
        let next = cursor + rr.size;
        match rr.record.rec_type {
            LogRecordType::NORMAL => {
                if !index.put(rr.record.key, pos) {
                    proof {
                        assert(false);
                    }
                    return Err(Errors::DataDirectoryCorrupted);
                }
            },
            LogRecordType::DELETED => {
                index.delete(rr.record.key);
            },
        }
        proof {
            let done2 = done.push(e);
            assert(done2.drop_last() =~= done);
            assert(done2.last() == e);
            let m2 = apply_one(m_mid, fid, e);
            assert(apply_recs(m_prev, fid, done2) == m2);
            // the scan-split equation moves one record forward
            assert(spec_records(data, cursor as nat) == (match spec_records(data, endp) {
                Some(rest2) => Some(seq![e] + rest2),
                None => None::<Seq<RecEntry>>,
            }));
            if spec_records(data, endp) is Some {
                let rest2 = spec_records(data, endp)->Some_0;
                assert(done + (seq![e] + rest2) =~= done2 + rest2);
            }
            assert((e.off as u64) as nat == e.off);
            done = done2;
            m_mid = m2;
        }
        cursor = next;
    }
}


/// The storage engine: an active data file taking appends, the sealed files
/// before it, and the in-memory index over all of them.
#[derive(Debug)]
pub struct Engine {
    options: Options,
    active_file: DataFile,
    older_files: Vec<DataFile>,
    index: KeyDir,
}

/// Extending the last file of a sequence by one encoded record replays to
/// applying that record at the end.
proof fn lemma_replay_extend_active(m0: Map<Seq<u8>, LiveEntry>, files: Seq<FileView>, r: RecordView)
    requires
        files.len() > 0,
        replay_files(m0, files) is Some,
        r.key.len() <= u64::MAX as nat,
        r.value.len() <= u64::MAX as nat,
    ensures
        ({
            let f = files.last();
            let f2 = FileView { id: f.id, data: f.data + record_encoding(r) };
            let e = RecEntry { off: f.data.len(), rec: r, end: f.data.len() + record_encoding(r).len() };
            let files2 = files.update(files.len() - 1, f2);
            &&& replay_files(m0, files2) is Some
            &&& replay_files(m0, files2)->Some_0 == apply_one(replay_files(m0, files)->Some_0, f.id, e)
        }),
{
    let f = files.last();
    let f2 = FileView { id: f.id, data: f.data + record_encoding(r) };
    let e = RecEntry { off: f.data.len(), rec: r, end: f.data.len() + record_encoding(r).len() };
    let files2 = files.update(files.len() - 1, f2);
    assert(files2.drop_last() =~= files.drop_last());
    assert(files2.last() == f2);
    let m1 = replay_files(m0, files.drop_last())->Some_0;
    let recs = spec_records(f.data, 0)->Some_0;
    lemma_records_append(f.data, r, 0);
    let recs2 = spec_records(f2.data, 0)->Some_0;
    assert(recs2 =~~= recs.push(e));
    assert(recs2.drop_last() =~= recs);
    assert(recs2.last() == e);
    assert(apply_recs(m1, f.id, recs2) == apply_one(apply_recs(m1, f.id, recs), f.id, e));
}

/// Appending a fresh, empty file leaves the replay unchanged.
proof fn lemma_replay_push_empty(m0: Map<Seq<u8>, LiveEntry>, files: Seq<FileView>, id: u32)
    requires
        replay_files(m0, files) is Some,
    ensures
        ({
            let files2 = files.push(FileView { id, data: Seq::empty() });
            &&& replay_files(m0, files2) is Some
            &&& replay_files(m0, files2)->Some_0 == replay_files(m0, files)->Some_0
        }),
{
    let f = FileView { id, data: Seq::empty() };
    let files2 = files.push(f);
    assert(files2.drop_last() =~= files);
    assert(files2.last() == f);
    assert(spec_records(f.data, 0) == Some(Seq::<RecEntry>::empty()));
}

impl View for Engine {
    type V = Map<Seq<u8>, Seq<u8>>;

    /// The key/value mapping this engine currently stores.
    closed spec fn view(&self) -> Map<Seq<u8>, Seq<u8>> {
        Map::new(
            |k: Seq<u8>| self.live().dom().contains(k),
            |k: Seq<u8>| self.live()[k].value,
        )
    }
}

impl Engine {
    /// The files of the directory, sealed ones first, the active file last.
    pub closed spec fn files(&self) -> Seq<FileView> {
        self.older_files@.map_values(|f: DataFile| f@).push(self.active_file@)
    }

    /// The live map: what replaying every file in order yields.
    pub closed spec fn live(&self) -> Map<Seq<u8>, LiveEntry> {
        replay_files(Map::empty(), self.files())->Some_0
    }

    pub closed spec fn active_id(&self) -> u32 {
        self.active_file@.id
    }

    pub closed spec fn active_len(&self) -> nat {
        self.active_file@.data.len()
    }

    pub closed spec fn threshold(&self) -> u64 {
        self.options.data_file_size
    }

    pub closed spec fn sync_on_write(&self) -> bool {
        self.options.sync_write
    }

    /// The index agrees with the live map: same keys, same positions.
    spec fn index_matches(&self) -> bool {
        &&& self.index.mapping().dom() == self.live().dom()
        &&& forall|k: Seq<u8>| #[trigger] self.live().dom().contains(k)
            ==> self.index.mapping()[k] == self.live()[k].pos
    }

    /// Everything the engine maintains about its files and index structure.
    spec fn files_wf(&self) -> bool {
        &&& self.index.valid()
        &&& replay_files(Map::<Seq<u8>, LiveEntry>::empty(), self.files()) is Some
        &&& forall|i: int, j: int|
            0 <= i < j < self.files().len() ==> (#[trigger] self.files()[i]).id < (
            #[trigger] self.files()[j]).id
        &&& forall|i: int|
            0 <= i < self.files().len() ==> (#[trigger] self.files()[i]).data.len()
                <= u64::MAX as nat
    }

    /// The engine's invariant: every constructor establishes it and every
    /// operation preserves it.
    pub closed spec fn wf(&self) -> bool {
        &&& self.files_wf()
        &&& self.index_matches()
    }


    /// Rebuild the index by replaying every file in id order.
    fn load_index_from_data_files(&mut self) -> (r: Result<()>)
        requires
            old(self).index.valid(),
            old(self).index.mapping() == Map::<Seq<u8>, LogRecordPos>::empty(),
            forall|a: int, b: int|
                0 <= a < b < old(self).files().len() ==> (#[trigger] old(self).files()[a]).id < (
                #[trigger] old(self).files()[b]).id,
            forall|i: int|
                0 <= i < old(self).files().len() ==> (#[trigger] old(self).files()[i]).data.len()
                    <= u64::MAX as nat,
        ensures
            final(self).options == old(self).options,
            final(self).files() == old(self).files(),
            match r {
                Ok(_) => final(self).wf(),
                Err(e) => e == Errors::DataDirectoryCorrupted && exists|i: int|
                    0 <= i < old(self).files().len() && !(spec_records(
                        (#[trigger] old(self).files()[i]).data,
                        0,
                    ) is Some),
            },
    {
        let ghost fviews = self.files();
        let ghost mut m: Map<Seq<u8>, LiveEntry> = Map::empty();
        proof {
            assert(fviews.subrange(0, 0) =~= Seq::<FileView>::empty());
        }
        let mut fi: usize = 0;
        while fi < self.older_files.len()
            invariant
                fi <= self.older_files@.len(),
                self.index.valid(),
                self.older_files@ == old(self).older_files@,
                self.active_file == old(self).active_file,
                self.options == old(self).options,
                fviews == self.files(),
                fviews == old(self).files(),
                forall|i: int|
                    0 <= i < fviews.len() ==> (#[trigger] fviews[i]).data.len() <= u64::MAX as nat,
                replay_files(Map::<Seq<u8>, LiveEntry>::empty(), fviews.subrange(0, fi as int))
                    == Some(m),
                self.index.mapping().dom() == m.dom(),
                forall|k: Seq<u8>| #[trigger] m.dom().contains(k) ==> self.index.mapping()[k]
                    == m[k].pos,
            decreases self.older_files@.len() - fi,
        {
            proof {
                assert(fviews[fi as int] == self.older_files@[fi as int]@);
            }
            match load_file(&mut self.index, &self.older_files[fi], Ghost(m)) {
                Ok(_) => (),
                Err(e) => {
                    proof {
                        assert(!(spec_records(old(self).files()[fi as int].data, 0) is Some));
                    }
                    return Err(e);
                },
            }
            proof {
                let f = fviews[fi as int];
                assert(fviews.subrange(0, fi + 1).drop_last() =~= fviews.subrange(0, fi as int));
                assert(fviews.subrange(0, fi + 1).last() == f);
                m = replay_file(m, f)->Some_0;
            }
            fi = fi + 1;
        }
        proof {
            assert(fviews[fviews.len() - 1] == self.active_file@);
        }
        match load_file(&mut self.index, &self.active_file, Ghost(m)) {
            Ok(_) => (),
            Err(e) => {
                proof {
                    assert(!(spec_records(old(self).files()[fviews.len() - 1].data, 0) is Some));
                }
                return Err(e);
            },
        }
        proof {
            assert(fviews.drop_last() =~= fviews.subrange(0, self.older_files@.len() as int));
            m = replay_file(m, fviews.last())->Some_0;
            assert(replay_files(Map::<Seq<u8>, LiveEntry>::empty(), fviews) == Some(m));
        }
        Ok(())
    }

    /// Open a database directory. `entries` is the directory's listing: each
    /// file's name and contents. Files named `<decimal-id>.data` are the data
    /// files; anything else is ignored. The highest id becomes the active
    /// file; if there are none, an empty file with id 0 is created.
    pub fn open(opts: Options, entries: Vec<DirEntry>) -> (r: Result<Engine>)
        ensures
            r is Ok <==> (opts_valid(opts) && entries_wf(entries@) && entries_decode(entries@)),
            match r {
                Ok(eng) => {
                    &&& eng.wf()
                    &&& eng.threshold() == opts.data_file_size
                    &&& eng.sync_on_write() == opts.sync_write
                    &&& forall|i: int|
                        0 <= i < entries@.len() && is_data_file_name(
                            (#[trigger] entries@[i]).name@,
                        ) ==> has_file(
                            eng.files(),
                            spec_parse_file_id(entries@[i].name@)->Some_0,
                            entries@[i].data@,
                        )
                    &&& forall|j: int|
                        #![trigger eng.files()[j]]
                        0 <= j < eng.files().len() ==> (exists|i: int|
                            0 <= i < entries@.len() && is_data_file_name(
                                (#[trigger] entries@[i]).name@,
                            ) && spec_parse_file_id(entries@[i].name@) == Some(eng.files()[j].id)
                                && entries@[i].data@ == eng.files()[j].data) || (!has_data_entries(
                            entries@,
                        ) && eng.files()[j].id == 0 && eng.files()[j].data == Seq::<u8>::empty()
                            && eng.files().len() == 1)
                },
                Err(err) => {
                    &&& !opts_valid(opts) ==> err == (if opts.dir_path@.len() == 0 {
                        Errors::DirPathIsEmpty
                    } else {
                        Errors::DataFileSizeTooSmall
                    })
                    &&& opts_valid(opts) ==> err == Errors::DataDirectoryCorrupted
                },
            },
    {
        match check_options(&opts) {
            Some(e) => {
                return Err(e);
            },
            None => (),
        }
        let ghost entsv = entries@;
        let mut ents = entries;
        let mut files: Vec<DataFile> = Vec::new();
        proof {
            assert(entsv.subrange(0, entsv.len() as int) =~= entsv);
        }
        while ents.len() > 0
            invariant
                opts_valid(opts),
                entsv == entries@,
                ents@ == entsv.subrange(0, ents@.len() as int),
                ents@.len() <= entsv.len(),
                forall|a: int, b: int|
                    0 <= a < b < files@.len() ==> (#[trigger] files@[a])@.id < (
                    #[trigger] files@[b])@.id,
                forall|x: int|
                    0 <= x < files@.len() ==> (#[trigger] files@[x])@.data.len()
                        <= u64::MAX as nat,
                forall|x: int|
                    ents@.len() <= x < entsv.len() && is_data_file_name(
                        (#[trigger] entsv[x]).name@,
                    ) ==> spec_parse_file_id(entsv[x].name@) is Some,
                forall|x: int, y: int|
                    ents@.len() <= x < y < entsv.len() && is_data_file_name(
                        (#[trigger] entsv[x]).name@,
                    ) && is_data_file_name((#[trigger] entsv[y]).name@) ==> spec_parse_file_id(
                        entsv[x].name@,
                    ) != spec_parse_file_id(entsv[y].name@),
                forall|x: int|
                    ents@.len() <= x < entsv.len() && is_data_file_name(
                        (#[trigger] entsv[x]).name@,
                    ) ==> has_file(
                        files@.map_values(|f: DataFile| f@),
                        spec_parse_file_id(entsv[x].name@)->Some_0,
                        entsv[x].data@,
                    ),
                forall|j: int|
                    #![trigger files@[j]]
                    0 <= j < files@.len() ==> exists|x: int|
                        ents@.len() <= x < entsv.len() && is_data_file_name(
                            (#[trigger] entsv[x]).name@,
                        ) && spec_parse_file_id(entsv[x].name@) == Some(files@[j]@.id)
                            && entsv[x].data@ == files@[j]@.data,
            decreases ents@.len(),
        {
            let ghost cur = ents@.len() - 1;
            let en = ents.pop().unwrap();
            proof {
                assert(en == entsv[cur]);
                assert(ents@ =~= entsv.subrange(0, cur));
            }
            if ends_with_data(&en.name) {
                let id = match parse_file_id(&en.name) {
                    Some(id) => id,
                    None => {
                        proof {
                            assert(is_data_file_name(entsv[cur].name@));
                            assert(!(spec_parse_file_id(entsv[cur].name@) is Some));
                            assert(!entries_wf(entsv));
                        }
                        return Err(Errors::DataDirectoryCorrupted);
                    },
                };
                let ghost files0 = files@;
                let df = DataFile::from_contents(id, en.data);
                if !insert_sorted(&mut files, df) {
                    proof {
                        let j = choose|j: int|
                            0 <= j < files0.len() && !((#[trigger] files0[j])@.id != df@.id);
                        let y = choose|x: int|
                            cur + 1 <= x < entsv.len() && is_data_file_name(
                                (#[trigger] entsv[x]).name@,
                            ) && spec_parse_file_id(entsv[x].name@) == Some(files0[j]@.id)
                                && entsv[x].data@ == files0[j]@.data;
                        assert(is_data_file_name(entsv[cur].name@));
                        assert(spec_parse_file_id(entsv[cur].name@) == spec_parse_file_id(
                            entsv[y].name@,
                        ));
                        assert(!entries_wf(entsv));
                    }
                    return Err(Errors::DataDirectoryCorrupted);
                }
                proof {
                    let p = choose|p: int|
                        0 <= p <= files0.len() && files@ == files0.insert(p, df);
                    assert(files@.map_values(|f: DataFile| f@) =~= files0.map_values(
                        |f: DataFile| f@,
                    ).insert(p, df@));
                    // every already-recorded entry keeps a matching file
                    assert forall|x: int|
                        cur < x < entsv.len() && is_data_file_name(
                            (#[trigger] entsv[x]).name@,
                        ) implies has_file(
                        files@.map_values(|f: DataFile| f@),
                        spec_parse_file_id(entsv[x].name@)->Some_0,
                        entsv[x].data@,
                    ) by {
                        let mapped0 = files0.map_values(|f: DataFile| f@);
                        let mapped = files@.map_values(|f: DataFile| f@);
                        let j0 = choose|j: int|
                            0 <= j < mapped0.len() && (#[trigger] mapped0[j]).id
                                == spec_parse_file_id(entsv[x].name@)->Some_0 && mapped0[j].data
                                == entsv[x].data@;
                        if j0 < p {
                            assert(mapped[j0] == mapped0[j0]);
                        } else {
                            assert(mapped[j0 + 1] == mapped0[j0]);
                        }
                    }
                    // the new file is the current entry's
                    assert(files@[p]@.id == df@.id);
                    assert(has_file(
                        files@.map_values(|f: DataFile| f@),
                        spec_parse_file_id(entsv[cur].name@)->Some_0,
                        entsv[cur].data@,
                    )) by {
                        assert(files@.map_values(|f: DataFile| f@)[p] == df@);
                    }
                    // distinctness extends to the current entry
                    assert forall|y: int|
                        cur < y < entsv.len() && is_data_file_name(
                            (#[trigger] entsv[y]).name@,
                        ) implies spec_parse_file_id(entsv[cur].name@) != spec_parse_file_id(
                        entsv[y].name@,
                    ) by {
                        let mapped0 = files0.map_values(|f: DataFile| f@);
                        let jy = choose|j: int|
                            0 <= j < mapped0.len() && (#[trigger] mapped0[j]).id
                                == spec_parse_file_id(entsv[y].name@)->Some_0 && mapped0[j].data
                                == entsv[y].data@;
                        assert(files0[jy]@.id != df@.id);
                    }
                    // every file still comes from some entry
                    assert forall|j: int|
                        #![trigger files@[j]]
                        0 <= j < files@.len() implies exists|x: int|
                            cur <= x < entsv.len() && is_data_file_name(
                                (#[trigger] entsv[x]).name@,
                            ) && spec_parse_file_id(entsv[x].name@) == Some(files@[j]@.id)
                                && entsv[x].data@ == files@[j]@.data by {
                        if j == p {
                            assert(files@[j] == df);
                            assert(is_data_file_name((entsv[cur]).name@)
                                && spec_parse_file_id(entsv[cur].name@) == Some(files@[j]@.id)
                                && entsv[cur].data@ == files@[j]@.data);
                        } else if j < p {
                            assert(files@[j] == files0[j]);
                        } else {
                            assert(files@[j] == files0[j - 1]);
                        }
                    }
                }
            }
        }
        proof {
            assert(ents@.len() == 0);
        }
        let ghost sorted = files@.map_values(|f: DataFile| f@);
        let mut older = files;
        let active: DataFile;
        let ghost no_data = older@.len() == 0;
        if older.len() == 0 {
            active = DataFile::new(0);
            proof {
                assert forall|x: int|
                    0 <= x < entsv.len() implies !is_data_file_name(
                    (#[trigger] entsv[x]).name@,
                ) by {
                    if is_data_file_name(entsv[x].name@) {
                        assert(has_file(
                            sorted,
                            spec_parse_file_id(entsv[x].name@)->Some_0,
                            entsv[x].data@,
                        ));
                    }
                }
            }
        } else {
            active = older.pop().unwrap();
        }
        let index = new_indexer(opts.index_type);
        let mut engine = Engine { options: opts, active_file: active, older_files: older, index };
        proof {
            if no_data {
                assert(engine.files() =~= seq![
                    FileView { id: 0, data: Seq::<u8>::empty() },
                ]);
            } else {
                assert(engine.files() =~= sorted);
            }
        }
        match engine.load_index_from_data_files() {
            Ok(_) => (),
            Err(e) => {
                proof {
                    let i = choose|i: int|
                        0 <= i < engine.files().len() && !(spec_records(
                            (#[trigger] engine.files()[i]).data,
                            0,
                        ) is Some);
                    assert(!no_data);
                    let x = choose|x: int|
                        0 <= x < entsv.len() && is_data_file_name((#[trigger] entsv[x]).name@)
                            && spec_parse_file_id(entsv[x].name@) == Some(sorted[i].id)
                            && entsv[x].data@ == sorted[i].data;
                    assert(!entries_decode(entsv));
                }
                return Err(e);
            },
        }
        proof {
            // a clean replay means every data entry's contents decode
            lemma_replay_files_some(Map::<Seq<u8>, LiveEntry>::empty(), engine.files());
            assert forall|x: int|
                0 <= x < entsv.len() && is_data_file_name(
                    (#[trigger] entsv[x]).name@,
                ) implies spec_records(entsv[x].data@, 0) is Some by {
                let fid = spec_parse_file_id(entsv[x].name@)->Some_0;
                let j = choose|j: int|
                    0 <= j < sorted.len() && (#[trigger] sorted[j]).id == fid && sorted[j].data
                        == entsv[x].data@;
                assert(engine.files()[j] == sorted[j]);
            }
        }
        Ok(engine)
    }


    /// The id of the file currently taking appends.
    pub fn active_file_id(&self) -> (r: u32)
        ensures
            r == self.active_id(),
    {
        self.active_file.get_file_id()
    }

    /// The number of sealed files before the active one.
    pub fn sealed_file_count(&self) -> (r: usize)
        ensures
            r + 1 == self.files().len(),
    {
        self.older_files.len()
    }

    /// Force durability of the active file's bytes; also the shutdown hook.
    pub fn close(&self) -> (r: Result<()>)
        ensures
            r == Ok::<(), Errors>(()),
    {
        self.active_file.sync()
    }

    /// Force durability of the active file's bytes.
    pub fn sync(&self) -> (r: Result<()>)
        ensures
            r == Ok::<(), Errors>(()),
    {
        self.active_file.sync()
    }

    /// The directory as it must exist on disk: one entry per data file, named
    /// `<decimal-id>.data`, holding that file's bytes. Feeding these entries
    /// back to [`Engine::open`] rebuilds an engine over the same files.
    pub fn export_files(&self) -> (r: Vec<DirEntry>)
        requires
            self.wf(),
        ensures
            r@.len() == self.files().len(),
            forall|i: int|
                0 <= i < r@.len() ==> (#[trigger] r@[i]).name@ == spec_file_name(
                    self.files()[i].id,
                ) && r@[i].data@ == self.files()[i].data,
    {
        let mut out: Vec<DirEntry> = Vec::new();
        let mut i: usize = 0;
        while i < self.older_files.len()
            invariant
                i <= self.older_files@.len(),
                out@.len() == i,
                forall|x: int|
                    0 <= x < i ==> (#[trigger] out@[x]).name@ == spec_file_name(
                        self.files()[x].id,
                    ) && out@[x].data@ == self.files()[x].data,
            decreases self.older_files@.len() - i,
        {
            proof {
                assert(self.files()[i as int] == self.older_files@[i as int]@);
            }
            let f = &self.older_files[i];
            let name = file_name_of(f.get_file_id());
            let n = f.contents().len();
            let data = copy_range(f.contents(), 0, n);
            proof {
                assert(data@ =~= self.files()[i as int].data);
            }
            out.push(DirEntry { name, data });
            i = i + 1;
        }
        proof {
            assert(self.files()[self.files().len() - 1] == self.active_file@);
        }
        let name = file_name_of(self.active_file.get_file_id());
        let n = self.active_file.contents().len();
        let data = copy_range(self.active_file.contents(), 0, n);
        proof {
            assert(data@ =~= self.active_file@.data);
        }
        out.push(DirEntry { name, data });
        out
    }

    /// Encode `record` and append it to the active file, rotating first when
    /// the threshold would be crossed; returns where the record now sits.
    /// The caller updates the index.
    fn append_log_record(&mut self, record: &LogRecord) -> (r: Result<LogRecordPos>)
        requires
            old(self).files_wf(),
        ensures
            final(self).files_wf(),
            final(self).options == old(self).options,
            final(self).index == old(self).index,
            ({
                let rlen = record_encoding(record@).len();
                let rot = needs_rotation(old(self).active_len(), rlen, old(self).threshold());
                match r {
                    Ok(pos) => {
                        &&& pos.file_id == final(self).active_id()
                        &&& final(self).live() == apply_one(
                            old(self).live(),
                            pos.file_id,
                            RecEntry { off: pos.offset as nat, rec: record@, end: pos.offset as nat + rlen },
                        )
                        &&& if rot {
                            &&& final(self).active_id() == old(self).active_id() + 1
                            &&& pos.offset == 0
                            &&& final(self).active_len() == rlen
                            &&& final(self).files().len() == old(self).files().len() + 1
                        } else {
                            &&& final(self).active_id() == old(self).active_id()
                            &&& pos.offset == old(self).active_len()
                            &&& final(self).active_len() == old(self).active_len() + rlen
                            &&& final(self).files().len() == old(self).files().len()
                        }
                    },
                    Err(e) => {
                        &&& e == Errors::FailedToWriteToDataFile
                        &&& rot && old(self).active_id() == u32::MAX
                        &&& *final(self) == *old(self)
                    },
                }
            }),
    {
        let enc = record.encode();
        let record_len = enc.len() as u64;

        let write_off = self.active_file.get_write_off();
        // rotate when the record would push a non-empty active file past the
        // threshold; the comparison is phrased to avoid overflow
        if write_off > 0 && (write_off > self.options.data_file_size || record_len
            > self.options.data_file_size - write_off) {
            match self.active_file.sync() {
                Ok(_) => (),
                Err(e) => {
                    return Err(e);
                },
            }
            let current_fid = self.active_file.get_file_id();
            if current_fid == u32::MAX {
                // every 32-bit file id has been used; no further file can be
                // created in this directory
                return Err(Errors::FailedToWriteToDataFile);
            }
            let ghost files0 = self.files();
            let ghost older0 = self.older_files@;
            let mut sealed = DataFile::new(current_fid + 1);
            std::mem::swap(&mut sealed, &mut self.active_file);
            self.older_files.push(sealed);
            proof {
                assert(self.files() =~= files0.push(
                    FileView { id: (current_fid + 1) as u32, data: Seq::empty() },
                )) by {
                    assert(self.older_files@.map_values(|f: DataFile| f@) =~= older0.map_values(
                        |f: DataFile| f@,
                    ).push(files0.last()));
                }
                lemma_replay_push_empty(Map::empty(), files0, (current_fid + 1) as u32);
            }
        }

        let ghost files1 = self.files();
        let ghost live1 = self.live();
        let write_off2 = self.active_file.get_write_off();
        match self.active_file.write(enc.as_slice()) {
            Ok(_) => (),
            Err(e) => {
                return Err(e);
            },
        }
        proof {
            let kl = record@.key.len();
            let vl = record@.value.len();
            assert(kl <= u64::MAX as nat && vl <= u64::MAX as nat);
            assert(self.files() =~= files1.update(
                files1.len() - 1,
                FileView {
                    id: files1.last().id,
                    data: files1.last().data + record_encoding(record@),
                },
            )) by {
                assert(self.older_files@.map_values(|f: DataFile| f@) =~= files1.drop_last());
            }
            lemma_replay_extend_active(Map::empty(), files1, record@);
        }

        if self.options.sync_write {
            match self.active_file.sync() {
                Ok(_) => (),
                Err(e) => {
                    return Err(e);
                },
            }
        }

        Ok(LogRecordPos::new(self.active_file.get_file_id(), write_off2))
    }

    /// Store `value` under `key`. The key must be non-empty; the value may be
    /// anything, including empty and larger than the file size threshold.
    pub fn put(&mut self, key: Vec<u8>, value: Vec<u8>) -> (r: Result<()>)
        requires
            old(self).wf(),
        ensures
            final(self).wf(),
            final(self).threshold() == old(self).threshold(),
            final(self).sync_on_write() == old(self).sync_on_write(),
            key@.len() == 0 ==> r == Err::<(), Errors>(Errors::KeyIsEmpty) && *final(self)
                == *old(self),
            key@.len() > 0 ==> ({
                let rlen = record_len(key@, value@, LogRecordType::NORMAL);
                let rot = needs_rotation(old(self).active_len(), rlen, old(self).threshold());
                if rot && old(self).active_id() == u32::MAX {
                    r == Err::<(), Errors>(Errors::FailedToWriteToDataFile) && *final(self)
                        == *old(self)
                } else {
                    &&& r == Ok::<(), Errors>(())
                    &&& final(self)@ == old(self)@.insert(key@, value@)
                    &&& if rot {
                        &&& final(self).active_id() == old(self).active_id() + 1
                        &&& final(self).active_len() == rlen
                        &&& final(self).files().len() == old(self).files().len() + 1
                    } else {
                        &&& final(self).active_id() == old(self).active_id()
                        &&& final(self).active_len() == old(self).active_len() + rlen
                        &&& final(self).files().len() == old(self).files().len()
                    }
                }
            }),
    {
        if key.is_empty() {
            return Err(Errors::KeyIsEmpty);
        }
        let key_copy = copy_range(&key, 0, key.len());
        proof {
            assert(key_copy@ =~= key@);
        }
        let record = LogRecord::new(key, value);
        let pos = match self.append_log_record(&record) {
            Ok(p) => p,
            Err(e) => {
                return Err(e);
            },
        };
        if !self.index.put(key_copy, pos) {
            return Err(Errors::IndexUpdateFailed);
        }
        proof {
            let le = LiveEntry { pos, value: value@ };
            assert(pos.offset as nat as u64 == pos.offset);
            assert(self.live() == old(self).live().insert(key@, le));
            assert(self.index.mapping() == old(self).index.mapping().insert(key@, pos));
            assert(self.index.mapping().dom() =~= self.live().dom());
            assert(self@ =~= old(self)@.insert(key@, value@));
        }
        Ok(())
    }


    /// The value stored under `key`, read back from its data file.
    pub fn get(&self, key: Vec<u8>) -> (r: Result<Vec<u8>>)
        requires
            self.wf(),
        ensures
            key@.len() == 0 ==> r == Err::<Vec<u8>, Errors>(Errors::KeyIsEmpty),
            key@.len() > 0 && !self@.contains_key(key@) ==> r == Err::<Vec<u8>, Errors>(
                Errors::KeyNotFound,
            ),
            key@.len() > 0 && self@.contains_key(key@) ==> (r matches Ok(v) && v@ == self@[key@]),
    {
        if key.is_empty() {
            return Err(Errors::KeyIsEmpty);
        }
        let ghost k = key@;
        let pos = match self.index.get(key) {
            Some(p) => p,
            None => {
                proof {
                    assert(!self.live().dom().contains(k));
                    assert(!self@.contains_key(k));
                }
                return Err(Errors::KeyNotFound);
            },
        };
        proof {
            assert(self.live().dom().contains(k));
            assert(self@.contains_key(k));
            assert(self.live()[k].pos == pos);
            lemma_replay_resolved(self.files());
            assert(live_resolved(self.files(), k, self.live()[k]));
        }
        if self.active_file.get_file_id() == pos.get_file_id() {
            proof {
                assert(self.files()[self.files().len() - 1] == self.active_file@);
                lemma_file_data_unique(self.files(), pos.file_id, self.files().len() - 1);
            }
            let rr = match self.active_file.read_log_record(pos.get_offset()) {
                Ok(rr) => rr,
                Err(e) => {
                    return Err(e);
                },
            };
            if matches!(rr.record.rec_type, LogRecordType::DELETED) {
                return Err(Errors::KeyNotFound);
            }
            proof {
                assert(rr.record@.value == self.live()[k].value);
                assert(self@[k] == self.live()[k].value);
            }
            return Ok(rr.record.value);
        }
        proof {
            lemma_file_data_of_exists(self.files(), pos.file_id);
            let i = choose|i: int|
                0 <= i < self.files().len() && (#[trigger] self.files()[i]).id == pos.file_id
                    && self.files()[i].data == file_data_of(self.files(), pos.file_id)->Some_0;
            assert(i < self.files().len() - 1);
            assert(self.older_files@[i]@ == self.files()[i]);
        }
        let mut i: usize = 0;
        while i < self.older_files.len()
            invariant
                self.wf(),
                k == key@,
                k.len() > 0,
                i <= self.older_files@.len(),
                live_resolved(self.files(), k, self.live()[k]),
                self.live().dom().contains(k),
                self@.contains_key(k),
                self@[k] == self.live()[k].value,
                self.live()[k].pos == pos,
                pos.file_id != self.active_file@.id,
                exists|j: int|
                    i <= j < self.older_files@.len() && (#[trigger] self.older_files@[j])@.id
                        == pos.file_id,
            decreases self.older_files@.len() - i,
        {
            if self.older_files[i].get_file_id() == pos.get_file_id() {
                proof {
                    assert(self.files()[i as int] == self.older_files@[i as int]@);
                    lemma_file_data_unique(self.files(), pos.file_id, i as int);
                }
                let rr = match self.older_files[i].read_log_record(pos.get_offset()) {
                    Ok(rr) => rr,
                    Err(e) => {
                        return Err(e);
                    },
                };
                if matches!(rr.record.rec_type, LogRecordType::DELETED) {
                    return Err(Errors::KeyNotFound);
                }
                proof {
                    assert(rr.record@.value == self.live()[k].value);
                }
                return Ok(rr.record.value);
            }
            proof {
                let j = choose|j: int|
                    i <= j < self.older_files@.len() && (#[trigger] self.older_files@[j])@.id
                        == pos.file_id;
                assert(j >= i + 1);
            }
            i = i + 1;
        }
        // the invariant guarantees the owning file exists, so this point is
        // unreachable; the error mirrors the broken-invariant report
        proof {
            assert(false);
        }
        Err(Errors::DataFileNotFound)
    }

    /// Remove `key`. Deleting a key that is not stored succeeds and changes
    /// nothing; otherwise a tombstone is appended and the key disappears.
    pub fn delete(&mut self, key: Vec<u8>) -> (r: Result<()>)
        requires
            old(self).wf(),
        ensures
            final(self).wf(),
            final(self).threshold() == old(self).threshold(),
            final(self).sync_on_write() == old(self).sync_on_write(),
            key@.len() == 0 ==> r == Err::<(), Errors>(Errors::KeyIsEmpty) && *final(self)
                == *old(self),
            key@.len() > 0 && !old(self)@.contains_key(key@) ==> r == Ok::<(), Errors>(())
                && *final(self) == *old(self),
            key@.len() > 0 && old(self)@.contains_key(key@) ==> ({
                let rlen = record_len(key@, Seq::<u8>::empty(), LogRecordType::DELETED);
                let rot = needs_rotation(old(self).active_len(), rlen, old(self).threshold());
                if rot && old(self).active_id() == u32::MAX {
                    r == Err::<(), Errors>(Errors::FailedToWriteToDataFile) && *final(self)
                        == *old(self)
                } else {
                    &&& r == Ok::<(), Errors>(())
                    &&& final(self)@ == old(self)@.remove(key@)
                }
            }),
    {
        if key.is_empty() {
            return Err(Errors::KeyIsEmpty);
        }
        let key_probe = copy_range(&key, 0, key.len());
        proof {
            assert(key_probe@ =~= key@);
        }
        if self.index.get(key_probe).is_none() {
            proof {
                assert(!old(self).live().dom().contains(key@));
                assert(!old(self)@.contains_key(key@));
            }
            return Ok(());
        }
        proof {
            assert(old(self).live().dom().contains(key@));
            assert(old(self)@.contains_key(key@));
        }
        let key_copy = copy_range(&key, 0, key.len());
        proof {
            assert(key_copy@ =~= key@);
        }
        let record = LogRecord { key, value: Vec::new(), rec_type: LogRecordType::DELETED };
        match self.append_log_record(&record) {
            Ok(_) => (),
            Err(e) => {
                return Err(e);
            },
        }
        if !self.index.delete(key_copy) {
            return Err(Errors::IndexUpdateFailed);
        }
        proof {
            assert(self.live() == old(self).live().remove(key@));
            assert(self.index.mapping() == old(self).index.mapping().remove(key@));
            assert(self.index.mapping().dom() =~= self.live().dom());
            assert(self@ =~= old(self)@.remove(key@));
        }
        Ok(())
    }
}


// ---------------------------------------------------------------------------
// Rendering file names, and the laws the store obeys
// ---------------------------------------------------------------------------

/// The decimal digits of an unsigned integer, most significant first.
pub open spec fn spec_dec_digits(n: nat) -> Seq<u8>
    decreases n,
{
    if n < 10 {
        seq![(48 + n) as u8]
    } else {
        spec_dec_digits(n / 10).push((48 + n % 10) as u8)
    }
}

/// The name under which a data file with this id exists on disk.
pub open spec fn spec_file_name(id: u32) -> Seq<u8> {
    spec_dec_digits(id as nat) + data_suffix()
}

fn push_dec_digits(out: &mut Vec<u8>, n: u32)
    ensures
        final(out)@ == old(out)@ + spec_dec_digits(n as nat),
    decreases n,
{
    if n < 10 {
        proof {
            assert(out@ + spec_dec_digits(n as nat) =~= out@.push((48 + n) as u8));
        }
        out.push((48 + n) as u8);
    } else {
        push_dec_digits(out, n / 10);
        proof {
            assert(old(out)@ + spec_dec_digits(n as nat) =~= (old(out)@ + spec_dec_digits(
                (n / 10) as nat,
            )).push((48 + n % 10) as u8));
        }
        out.push((48 + (n % 10)) as u8);
    }
}

/// The on-disk name of the data file with the given id.
pub fn file_name_of(id: u32) -> (r: Vec<u8>)
    ensures
        r@ == spec_file_name(id),
{
    let mut out: Vec<u8> = Vec::new();
    push_dec_digits(&mut out, id);
    out.push(46);
    out.push(100);
    out.push(97);
    out.push(116);
    out.push(97);
    proof {
        assert(out@ =~= spec_file_name(id));
    }
    out
}

proof fn lemma_dec_digits_are_digits(n: nat)
    ensures
        spec_dec_digits(n).len() >= 1,
        forall|i: int|
            0 <= i < spec_dec_digits(n).len() ==> 48 <= #[trigger] spec_dec_digits(n)[i] <= 57,
    decreases n,
{
    if n >= 10 {
        lemma_dec_digits_are_digits(n / 10);
    }
}

proof fn lemma_dot_pos_first(name: Seq<u8>, d: nat, i: nat)
    requires
        i <= d < name.len(),
        name[d as int] == 46,
        forall|j: int| i <= j < d ==> name[j] != 46,
    ensures
        dot_pos(name, i) == Some(d),
    decreases d - i,
{
    if i < d {
        lemma_dot_pos_first(name, d, i + 1);
    }
}

proof fn lemma_digits_val_roundtrip(name: Seq<u8>, n: nat)
    requires
        spec_dec_digits(n).len() <= name.len(),
        name.subrange(0, spec_dec_digits(n).len() as int) == spec_dec_digits(n),
    ensures
        digits_val(name, 0, spec_dec_digits(n).len()) == Some(n),
    decreases n,
{
    let digits = spec_dec_digits(n);
    let dl = digits.len();
    assert(name[dl - 1] == digits[dl - 1]);
    if n < 10 {
        assert(name[0] == (48 + n) as u8);
    } else {
        let prev = spec_dec_digits(n / 10);
        assert(digits[dl - 1] == (48 + n % 10) as u8);
        assert(name.subrange(0, prev.len() as int) =~= prev) by {
            assert forall|i: int| 0 <= i < prev.len() implies name.subrange(
                0,
                prev.len() as int,
            )[i] == prev[i] by {
                assert(name[i] == digits[i]);
            }
        }
        lemma_digits_val_roundtrip(name, n / 10);
        assert(digits_val(name, 0, (dl - 1) as nat) == Some(n / 10));
        assert(name[dl - 1] == (48 + n % 10) as u8);
        assert(48 <= name[dl - 1] <= 57);
        assert((name[dl - 1] - 48) as nat == n % 10);
        assert(digits_val(name, 0, dl as nat) == Some((n / 10) * 10 + n % 10));
        assert((n / 10) * 10 + n % 10 == n) by {
            vstd::arithmetic::div_mod::lemma_fundamental_div_mod(n as int, 10);
        }
    }
}

/// A rendered file name parses back to its id.
#[verifier::rlimit(30)]
pub proof fn lemma_file_name_roundtrip(id: u32)
    ensures
        is_data_file_name(spec_file_name(id)),
        spec_parse_file_id(spec_file_name(id)) == Some(id),
{
    let name = spec_file_name(id);
    let digits = spec_dec_digits(id as nat);
    lemma_dec_digits_are_digits(id as nat);
    assert(name.subrange(name.len() - 5, name.len() as int) =~= data_suffix());
    assert(name[digits.len() as int] == 46);
    assert forall|j: int| 0 <= j < digits.len() implies name[j] != 46 by {
        assert(name[j] == digits[j]);
    }
    lemma_dot_pos_first(name, digits.len(), 0);
    assert(name.subrange(0, digits.len() as int) =~= digits);
    lemma_digits_val_roundtrip(name, id as nat);
}

/// Two well-formed ascending file sequences holding the same files are the
/// same sequence.
proof fn lemma_sorted_unique_eq(s1: Seq<FileView>, s2: Seq<FileView>)
    requires
        forall|a: int, b: int|
            0 <= a < b < s1.len() ==> (#[trigger] s1[a]).id < (#[trigger] s1[b]).id,
        forall|a: int, b: int|
            0 <= a < b < s2.len() ==> (#[trigger] s2[a]).id < (#[trigger] s2[b]).id,
        forall|fid: u32, d: Seq<u8>| has_file(s1, fid, d) <==> #[trigger] has_file(s2, fid, d),
    ensures
        s1 =~= s2,
    decreases s1.len(),
{
    if s1.len() == 0 {
        if s2.len() > 0 {
            assert(has_file(s2, s2[0].id, s2[0].data));
        }
    } else {
        let l1 = s1.last();
        assert(has_file(s1, l1.id, l1.data));
        assert(has_file(s2, l1.id, l1.data));
        let j = choose|j: int|
            0 <= j < s2.len() && (#[trigger] s2[j]).id == l1.id && s2[j].data == l1.data;
        let l2 = s2.last();
        assert(has_file(s2, l2.id, l2.data));
        assert(has_file(s1, l2.id, l2.data));
        let j1 = choose|j1: int|
            0 <= j1 < s1.len() && (#[trigger] s1[j1]).id == l2.id && s1[j1].data == l2.data;
        assert(s2[j].id <= l2.id);
        assert(s1[j1].id <= l1.id);
        assert(l1.id == l2.id);
        assert(j == s2.len() - 1);
        assert(l1 =~= l2);
        let p1 = s1.drop_last();
        let p2 = s2.drop_last();
        assert forall|a: int, b: int| 0 <= a < b < p1.len() implies (#[trigger] p1[a]).id < (
        #[trigger] p1[b]).id by {
            assert(p1[a] == s1[a] && p1[b] == s1[b]);
        }
        assert forall|a: int, b: int| 0 <= a < b < p2.len() implies (#[trigger] p2[a]).id < (
        #[trigger] p2[b]).id by {
            assert(p2[a] == s2[a] && p2[b] == s2[b]);
        }
        assert forall|fid: u32, d: Seq<u8>| has_file(p1, fid, d) <==> #[trigger] has_file(
            p2,
            fid,
            d,
        ) by {
            if has_file(p1, fid, d) {
                let x = choose|x: int|
                    0 <= x < p1.len() && (#[trigger] p1[x]).id == fid && p1[x].data == d;
                assert(p1[x] == s1[x]);
                assert(s1[x].id < l1.id);
                assert(has_file(s1, fid, d));
                assert(has_file(s2, fid, d));
                let y = choose|y: int|
                    0 <= y < s2.len() && (#[trigger] s2[y]).id == fid && s2[y].data == d;
                assert(y < s2.len() - 1);
                assert(p2[y] == s2[y]);
                assert(has_file(p2, fid, d));
            }
            if has_file(p2, fid, d) {
                let x = choose|x: int|
                    0 <= x < p2.len() && (#[trigger] p2[x]).id == fid && p2[x].data == d;
                assert(p2[x] == s2[x]);
                assert(s2[x].id < l2.id);
                assert(has_file(s2, fid, d));
                assert(has_file(s1, fid, d));
                let y = choose|y: int|
                    0 <= y < s1.len() && (#[trigger] s1[y]).id == fid && s1[y].data == d;
                assert(y < s1.len() - 1);
                assert(p1[y] == s1[y]);
                assert(has_file(p1, fid, d));
            }
        }
        lemma_sorted_unique_eq(p1, p2);
        assert(s1 =~= p1.push(l1));
        assert(s2 =~= p2.push(l2));
    }
}

/// Recovery equivalence: two engines over the same data files store exactly
/// the same key/value mapping. In particular, an engine rebuilt by
/// [`Engine::open`] from the files an earlier engine left on disk answers
/// every read as the earlier engine did.
pub proof fn lemma_recovery_equivalence(e1: Engine, e2: Engine)
    requires
        e1.wf(),
        e2.wf(),
        forall|fid: u32, d: Seq<u8>| has_file(e1.files(), fid, d) <==> #[trigger] has_file(
            e2.files(),
            fid,
            d,
        ),
    ensures
        e1@ == e2@,
{
    lemma_sorted_unique_eq(e1.files(), e2.files());
    assert(e1@ =~= e2@);
}


/// Durability of a clean shutdown: an engine opened over exactly the entries
/// another engine exported (per [`Engine::export_files`] and the contract of
/// [`Engine::open`]) stores the same mapping, so every later read answers as
/// the first engine did.
pub proof fn lemma_reopen_preserves_state(e1: Engine, e2: Engine, entries: Seq<DirEntry>)
    requires
        e1.wf(),
        e2.wf(),
        // what export_files says about the entries it wrote
        entries.len() == e1.files().len(),
        forall|i: int|
            0 <= i < entries.len() ==> (#[trigger] entries[i]).name@ == spec_file_name(
                e1.files()[i].id,
            ) && entries[i].data@ == e1.files()[i].data,
        // what open says about the engine it built from them
        forall|i: int|
            0 <= i < entries.len() && is_data_file_name((#[trigger] entries[i]).name@)
                ==> has_file(
                e2.files(),
                spec_parse_file_id(entries[i].name@)->Some_0,
                entries[i].data@,
            ),
        forall|j: int|
            #![trigger e2.files()[j]]
            0 <= j < e2.files().len() ==> (exists|i: int|
                0 <= i < entries.len() && is_data_file_name((#[trigger] entries[i]).name@)
                    && spec_parse_file_id(entries[i].name@) == Some(e2.files()[j].id)
                    && entries[i].data@ == e2.files()[j].data) || (!has_data_entries(entries)
                && e2.files()[j].id == 0 && e2.files()[j].data == Seq::<u8>::empty()
                && e2.files().len() == 1),
    ensures
        e1@ == e2@,
{
    assert(e1.files().len() >= 1);
    assert(entries[0].name@ == spec_file_name(e1.files()[0].id));
    lemma_file_name_roundtrip(e1.files()[0].id);
    assert(has_data_entries(entries));
    assert forall|fid: u32, d: Seq<u8>| has_file(e1.files(), fid, d) <==> #[trigger] has_file(
        e2.files(),
        fid,
        d,
    ) by {
        if has_file(e1.files(), fid, d) {
            let x = choose|x: int|
                0 <= x < e1.files().len() && (#[trigger] e1.files()[x]).id == fid
                    && e1.files()[x].data == d;
            lemma_file_name_roundtrip(fid);
            assert(entries[x].name@ == spec_file_name(fid));
            assert(is_data_file_name(entries[x].name@));
            assert(has_file(e2.files(), fid, d));
        }
        if has_file(e2.files(), fid, d) {
            let j = choose|j: int|
                0 <= j < e2.files().len() && (#[trigger] e2.files()[j]).id == fid
                    && e2.files()[j].data == d;
            let i = choose|i: int|
                0 <= i < entries.len() && is_data_file_name((#[trigger] entries[i]).name@)
                    && spec_parse_file_id(entries[i].name@) == Some(e2.files()[j].id)
                    && entries[i].data@ == e2.files()[j].data;
            lemma_file_name_roundtrip(e1.files()[i].id);
            assert(spec_parse_file_id(entries[i].name@) == Some(e1.files()[i].id));
            assert(e1.files()[i].id == fid && e1.files()[i].data == d);
            assert(has_file(e1.files(), fid, d));
        }
    }
    lemma_recovery_equivalence(e1, e2);
}

/// Round trip: after a put of `key`/`value` the stored mapping yields
/// `value` for `key`, and keeps doing so across operations on other keys.
/// Together with the contracts of [`Engine::put`] and [`Engine::get`] this
/// is the round-trip law: a successful `put(key, value)` makes `get(key)`
/// return `value` until the next put or delete of that same key.
pub proof fn lemma_round_trip(
    m: Map<Seq<u8>, Seq<u8>>,
    key: Seq<u8>,
    value: Seq<u8>,
    other: Seq<u8>,
    other_value: Seq<u8>,
)
    requires
        other != key,
    ensures
        m.insert(key, value).contains_key(key),
        m.insert(key, value)[key] == value,
        m.insert(key, value).insert(other, other_value).contains_key(key),
        m.insert(key, value).insert(other, other_value)[key] == value,
        m.insert(key, value).remove(other).contains_key(key),
        m.insert(key, value).remove(other)[key] == value,
{
}

/// Tombstone: after a delete of `key` the stored mapping no longer contains
/// it, and operations on other keys cannot bring it back. Together with the
/// contracts of [`Engine::delete`] and [`Engine::get`] this is the tombstone
/// law: after `delete(key)`, `get(key)` fails with `KeyNotFound` until a
/// subsequent put of that key.
pub proof fn lemma_tombstone(
    m: Map<Seq<u8>, Seq<u8>>,
    key: Seq<u8>,
    other: Seq<u8>,
    other_value: Seq<u8>,
)
    requires
        other != key,
    ensures
        !m.remove(key).contains_key(key),
        !m.remove(key).insert(other, other_value).contains_key(key),
        !m.remove(key).remove(other).contains_key(key),
{
}

/// Rotation preserves reads: a put changes no other key's entry, whether or
/// not it rotated the active file — [`Engine::put`] promises the same final
/// mapping in both cases.
pub proof fn lemma_put_preserves_others(
    m: Map<Seq<u8>, Seq<u8>>,
    key: Seq<u8>,
    value: Seq<u8>,
    other: Seq<u8>,
)
    requires
        other != key,
    ensures
        m.insert(key, value).contains_key(other) == m.contains_key(other),
        m.contains_key(other) ==> m.insert(key, value)[other] == m[other],
{
}


} // verus!