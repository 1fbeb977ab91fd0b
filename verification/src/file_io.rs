//! The table of open file units (COSY unit numbers) and the checks and framing of the
//! ASCII and binary reads and writes on them. Opening, reading and writing the files
//! themselves is left to the caller, which follows what these functions decide.

use vstd::prelude::*;
use crate::binary::{le_bytes, le_u64_bytes, le_u64_at, le_value};
use crate::text::{ascii_lowercase, is_ascii_text, str_eq};

verus! {

/// What `str::to_lowercase` gives for a string.
pub uninterp spec fn lowercase(s: Seq<char>) -> Seq<char>;

/// Calls `str::to_lowercase`. Trusted: the result is the one the name `lowercase` stands for, a
/// function of the text alone, and on ASCII text it is the ASCII lower-casing (Unicode maps
/// `A`..`Z` to `a`..`z` and leaves other ASCII characters alone); nothing more is claimed.
#[verifier::external_body]
fn to_lower(s: &str) -> (r: String)
    ensures
        r@ == lowercase(s@),
        is_ascii_text(s@) ==> r@ == ascii_lowercase(s@),
{
    s.to_lowercase()
}

/// How a unit was opened, from the Fortran-style status of OPENF / OPENFB.
#[derive(Debug, Clone, Copy, PartialEq, Eq)]
pub enum OpenMode {
    /// `unknown`: read and write; an existing file is kept, a missing one created empty.
    ReadWrite,
    /// `replace`: write; the file is created or truncated.
    Replace,
    /// `old`: read an existing file.
    ReadOld,
    /// `new`: write a file that must not exist yet.
    WriteNew,
}

impl OpenMode {
    pub open spec fn can_read(self) -> bool {
        self is ReadWrite || self is ReadOld
    }

    pub open spec fn can_write(self) -> bool {
        !(self is ReadOld)
    }

    pub fn readable(&self) -> (r: bool)
        ensures
            r == self.can_read(),
    {
        match self {
            OpenMode::ReadWrite | OpenMode::ReadOld => true,
            _ => false,
        }
    }

    pub fn writable(&self) -> (r: bool)
        ensures
            r == self.can_write(),
    {
        match self {
            OpenMode::ReadOld => false,
            _ => true,
        }
    }
}

/// Mode named by a status already in lower case.
pub open spec fn status_mode_spec(lower: Seq<char>) -> Option<OpenMode> {
    if lower == "unknown"@ {
        Some(OpenMode::ReadWrite)
    } else if lower == "replace"@ {
        Some(OpenMode::Replace)
    } else if lower == "old"@ {
        Some(OpenMode::ReadOld)
    } else if lower == "new"@ {
        Some(OpenMode::WriteNew)
    } else {
        None
    }
}

/// The mode a lower-case status names, if it names one.
pub fn status_mode(lower: &str) -> (r: Option<OpenMode>)
    ensures
        r == status_mode_spec(lower@),
{
    if str_eq(lower, "unknown") {
        Some(OpenMode::ReadWrite)
    } else if str_eq(lower, "replace") {
        Some(OpenMode::Replace)
    } else if str_eq(lower, "old") {
        Some(OpenMode::ReadOld)
    } else if str_eq(lower, "new") {
        Some(OpenMode::WriteNew)
    } else {
        None
    }
}

/// Why a unit operation was refused.
#[derive(Debug, Clone, Copy, PartialEq, Eq)]
pub enum FileError {
    /// The status is none of `unknown`, `old`, `new`, `replace` (in any case).
    UnknownStatus,
    /// No file is open on the unit.
    NoFileOpen { unit: u64 },
    /// The unit's file was not opened for writing.
    NotWritable { unit: u64 },
    /// The unit's file was not opened for reading.
    NotReadable { unit: u64 },
    /// A READ found no more lines.
    EndOfFile { unit: u64 },
    /// A READB found fewer than eight bytes for the length prefix.
    LengthPrefixMissing { unit: u64 },
    /// A READB found fewer bytes than the length prefix announced.
    DataMissing { unit: u64 },
}

/// An open unit.
pub struct UnitEntry {
    pub unit: u64,
    pub mode: OpenMode,
    pub path: String,
    pub binary: bool,
}

/// The open units, each unit number at most once.
pub struct UnitTable {
    pub entries: Vec<UnitEntry>,
}

/// The entry of `unit` among `e`, if any.
pub open spec fn entry_of(e: Seq<UnitEntry>, unit: u64) -> Option<UnitEntry>
    decreases e.len(),
{
    if e.len() == 0 {
        None
    } else if e.last().unit == unit {
        Some(e.last())
    } else {
        entry_of(e.drop_last(), unit)
    }
}

/// The mode `unit` is open in, if it is open.
pub open spec fn mode_of(e: Seq<UnitEntry>, unit: u64) -> Option<OpenMode> {
    match entry_of(e, unit) {
        Some(x) => Some(x.mode),
        None => None,
    }
}

proof fn lemma_entry_of_absent(e: Seq<UnitEntry>, unit: u64)
    requires
        forall|i: int| 0 <= i < e.len() ==> (#[trigger] e[i]).unit != unit,
    ensures
        entry_of(e, unit) is None,
    decreases e.len(),
{
    if e.len() > 0 {
        lemma_entry_of_absent(e.drop_last(), unit);
    }
}

proof fn lemma_entry_of_at(e: Seq<UnitEntry>, i: int)
    requires
        0 <= i < e.len(),
        forall|j: int, k: int| 0 <= j < k < e.len() ==> (#[trigger] e[j]).unit != (#[trigger] e[k]).unit,
    ensures
        entry_of(e, e[i].unit) == Some(e[i]),
    decreases e.len(),
{
    if i < e.len() - 1 {
        lemma_entry_of_at(e.drop_last(), i);
    }
}

proof fn lemma_entry_of_remove(e: Seq<UnitEntry>, i: int, u: u64)
    requires
        0 <= i < e.len(),
        e[i].unit != u,
    ensures
        entry_of(e.remove(i), u) == entry_of(e, u),
    decreases e.len(),
{
    if i < e.len() - 1 {
        assert(e.remove(i).drop_last() =~= e.drop_last().remove(i));
        lemma_entry_of_remove(e.drop_last(), i, u);
    } else {
        assert(e.remove(i) =~= e.drop_last());
    }
}

impl UnitTable {
    pub open spec fn wf(&self) -> bool {
        forall|j: int, k: int|
            0 <= j < k < self.entries@.len() ==> (#[trigger] self.entries@[j]).unit != (#[trigger] self.entries@[k]).unit
    }

    /// The entry of `unit`, if it is open.
    pub open spec fn entry(&self, unit: u64) -> Option<UnitEntry> {
        entry_of(self.entries@, unit)
    }

    /// No unit open.
    pub fn new() -> (r: UnitTable)
        ensures
            r.wf(),
            forall|u: u64| r.entry(u) is None,
    {
        UnitTable { entries: Vec::new() }
    }

    fn position(&self, unit: u64) -> (r: Option<usize>)
        requires
            self.wf(),
        ensures
            match r {
                Some(i) => i < self.entries@.len() && self.entries@[i as int].unit == unit
                    && self.entry(unit) == Some(self.entries@[i as int]),
                None => self.entry(unit) is None,
            },
    {
        let mut i: usize = 0;
        while i < self.entries.len()
            invariant
                self.wf(),
                i <= self.entries@.len(),
                forall|j: int| 0 <= j < i ==> (#[trigger] self.entries@[j]).unit != unit,
            decreases self.entries@.len() - i,
        {
            if self.entries[i].unit == unit {
                proof {
                    lemma_entry_of_at(self.entries@, i as int);
                }
                return Some(i);
            }
            i = i + 1;
        }
        proof {
            lemma_entry_of_absent(self.entries@, unit);
        }
        None
    }

    /// The mode `unit` is open in, if it is open.
    pub fn unit_mode(&self, unit: u64) -> (r: Option<OpenMode>)
        requires
            self.wf(),
        ensures
            r == mode_of(self.entries@, unit),
    {
        match self.position(unit) {
            Some(i) => Some(self.entries[i].mode),
            None => None,
        }
    }

    /// Closes `unit`; closing a unit that is not open does nothing.
    pub fn close(&mut self, unit: u64)
        requires
            old(self).wf(),
        ensures
            final(self).wf(),
            final(self).entry(unit) is None,
            forall|u: u64| u != unit ==> final(self).entry(u) == old(self).entry(u),
    {
        match self.position(unit) {
            Some(i) => {
                let ghost before = self.entries@;
                self.entries.remove(i);
                proof {
                    assert(self.entries@ =~= before.remove(i as int));
                    assert forall|u: u64| u != unit implies #[trigger] entry_of(self.entries@, u) == entry_of(before, u) by {
                        lemma_entry_of_remove(before, i as int, u);
                    }
                    assert forall|j: int| 0 <= j < self.entries@.len() implies (#[trigger] self.entries@[j]).unit != unit by {
                        if j < i {
                            assert(before[j].unit != before[i as int].unit);
                        } else {
                            assert(before[j + 1].unit != before[i as int].unit);
                        }
                    }
                    lemma_entry_of_absent(self.entries@, unit);
                }
            },
            None => {},
        }
    }

    /// Records `unit` as open, replacing whatever was open on it.
    pub fn register(&mut self, unit: u64, mode: OpenMode, path: String, binary: bool)
        requires
            old(self).wf(),
        ensures
            final(self).wf(),
            final(self).entry(unit) matches Some(x) && x.mode == mode && x.path@ == path@ && x.binary == binary,
            forall|u: u64| u != unit ==> final(self).entry(u) == old(self).entry(u),
    {
        self.close(unit);
        proof {
            assert forall|j: int| 0 <= j < self.entries@.len() implies (#[trigger] self.entries@[j]).unit != unit by {
                if self.entries@[j].unit == unit {
                    lemma_entry_of_at(self.entries@, j);
                }
            }
        }
        let ghost before = self.entries@;
        self.entries.push(UnitEntry { unit, mode, path, binary });
        proof {
            assert(self.entries@.drop_last() =~= before);
        }
    }
}

/// Opens `unit` on `filename` with a Fortran-style `status` (any case): whatever was open on
/// the unit is closed first; then the status decides the mode, and the unit is recorded as
/// open in it (an unknown status leaves the unit closed and is refused). The caller opens
/// the file in the returned mode, and closes the unit again if the system refuses.
pub fn open_unit(table: &mut UnitTable, unit: u64, filename: &str, status: &str, binary: bool) -> (r: Result<OpenMode, FileError>)
    requires
        old(table).wf(),
    ensures
        final(table).wf(),
        r == (match status_mode_spec(lowercase(status@)) {
            Some(m) => Ok::<OpenMode, FileError>(m),
            None => Err(FileError::UnknownStatus),
        }),
        match r {
            Ok(m) => final(table).entry(unit) matches Some(x) && x.mode == m && x.path@ == filename@ && x.binary == binary,
            Err(_) => final(table).entry(unit) is None,
        },
        is_ascii_text(status@) ==> lowercase(status@) == ascii_lowercase(status@),
        forall|u: u64| u != unit ==> final(table).entry(u) == old(table).entry(u),
{
    table.close(unit);
    let lower = to_lower(status);
    assert(is_ascii_text(status@) ==> lowercase(status@) == ascii_lowercase(status@));
    match status_mode(lower.as_str()) {
        Some(m) => {
            table.register(unit, m, filename.to_string(), binary);
            Ok(m)
        },
        None => Err(FileError::UnknownStatus),
    }
}

/// OPENF: opens a unit for ASCII reads and writes (see `open_unit`).
pub fn rosy_openf(table: &mut UnitTable, unit: u64, filename: &str, status: &str) -> (r: Result<OpenMode, FileError>)
    requires
        old(table).wf(),
    ensures
        final(table).wf(),
        r == (match status_mode_spec(lowercase(status@)) {
            Some(m) => Ok::<OpenMode, FileError>(m),
            None => Err(FileError::UnknownStatus),
        }),
        match r {
            Ok(m) => final(table).entry(unit) matches Some(x) && x.mode == m && x.path@ == filename@ && !x.binary,
            Err(_) => final(table).entry(unit) is None,
        },
        is_ascii_text(status@) ==> lowercase(status@) == ascii_lowercase(status@),
        forall|u: u64| u != unit ==> final(table).entry(u) == old(table).entry(u),
{
    open_unit(table, unit, filename, status, false)
}

/// OPENFB: opens a unit for binary reads and writes (see `open_unit`).
pub fn rosy_openfb(table: &mut UnitTable, unit: u64, filename: &str, status: &str) -> (r: Result<OpenMode, FileError>)
    requires
        old(table).wf(),
    ensures
        final(table).wf(),
        r == (match status_mode_spec(lowercase(status@)) {
            Some(m) => Ok::<OpenMode, FileError>(m),
            None => Err(FileError::UnknownStatus),
        }),
        match r {
            Ok(m) => final(table).entry(unit) matches Some(x) && x.mode == m && x.path@ == filename@ && x.binary,
            Err(_) => final(table).entry(unit) is None,
        },
        is_ascii_text(status@) ==> lowercase(status@) == ascii_lowercase(status@),
        forall|u: u64| u != unit ==> final(table).entry(u) == old(table).entry(u),
{
    open_unit(table, unit, filename, status, true)
}

/// The check before a write on `unit`.
pub open spec fn write_check(e: Seq<UnitEntry>, unit: u64) -> Result<(), FileError> {
    match mode_of(e, unit) {
        None => Err(FileError::NoFileOpen { unit }),
        Some(m) => if m.can_write() {
            Ok(())
        } else {
            Err(FileError::NotWritable { unit })
        },
    }
}

/// The check before a read on `unit`.
pub open spec fn read_check(e: Seq<UnitEntry>, unit: u64) -> Result<(), FileError> {
    match mode_of(e, unit) {
        None => Err(FileError::NoFileOpen { unit }),
        Some(m) => if m.can_read() {
            Ok(())
        } else {
            Err(FileError::NotReadable { unit })
        },
    }
}

fn check_write(table: &UnitTable, unit: u64) -> (r: Result<(), FileError>)
    requires
        table.wf(),
    ensures
        r == write_check(table.entries@, unit),
{
    match table.unit_mode(unit) {
        None => Err(FileError::NoFileOpen { unit }),
        Some(m) => if m.writable() {
            Ok(())
        } else {
            Err(FileError::NotWritable { unit })
        },
    }
}

fn check_read(table: &UnitTable, unit: u64) -> (r: Result<(), FileError>)
    requires
        table.wf(),
    ensures
        r == read_check(table.entries@, unit),
{
    match table.unit_mode(unit) {
        None => Err(FileError::NoFileOpen { unit }),
        Some(m) => if m.readable() {
            Ok(())
        } else {
            Err(FileError::NotReadable { unit })
        },
    }
}

/// WRITE to a unit: the text to append to the unit's file, `content` and a line break, once
/// the unit is open for writing.
pub fn rosy_write_to_unit(table: &UnitTable, unit: u64, content: &str) -> (r: Result<String, FileError>)
    requires
        table.wf(),
    ensures
        match write_check(table.entries@, unit) {
            Err(e) => r == Err::<String, FileError>(e),
            Ok(_) => r matches Ok(s) && s@ == content@.push('\n'),
        },
{
    match check_write(table, unit) {
        Err(e) => Err(e),
        Ok(_) => {
            let mut s = content.to_string();
            crate::text::push_char(&mut s, '\n');
            Ok(s)
        },
    }
}

/// `s` without its trailing `c`s (`str::trim_end_matches` with one character).
pub open spec fn strip_trailing(s: Seq<char>, c: char) -> Seq<char>
    decreases s.len(),
{
    if s.len() > 0 && s.last() == c {
        strip_trailing(s.drop_last(), c)
    } else {
        s
    }
}

fn strip_trailing_len(s: &Vec<char>, hi: usize, c: char) -> (r: usize)
    requires
        hi <= s@.len(),
    ensures
        r <= hi,
        strip_trailing(s@.take(hi as int), c) == s@.take(r as int),
{
    let mut k = hi;
    while k > 0 && s[k - 1] == c
        invariant
            k <= hi <= s@.len(),
            strip_trailing(s@.take(hi as int), c) == strip_trailing(s@.take(k as int), c),
        decreases k,
    {
        proof {
            assert(s@.take(k as int).drop_last() =~= s@.take(k - 1));
        }
        k = k - 1;
    }
    k
}

/// A line as READ returns it: trailing line feeds removed, then trailing carriage returns.
pub open spec fn line_text(raw: Seq<char>) -> Seq<char> {
    strip_trailing(strip_trailing(raw, '\n'), '\r')
}

fn line_of(raw: &str) -> (r: String)
    ensures
        r@ == line_text(raw@),
{
    let c = crate::text::chars_of(raw);
    let a = strip_trailing_len(&c, c.len(), '\n');
    let b = strip_trailing_len(&c, a, '\r');
    proof {
        assert(c@.take(c@.len() as int) =~= c@);
    }
    let t = crate::text::sub_chars(&c, 0, b);
    proof {
        assert(t@ =~= c@.take(b as int));
    }
    crate::text::string_of(&t)
}

/// READ from a unit: `raw` is what reading one line from the unit's file gave (empty at
/// the end of the file). Refused when the unit is not open for reading, or at the end of
/// the file; otherwise the line without its line break.
pub fn rosy_read_from_unit(table: &UnitTable, unit: u64, raw: &str) -> (r: Result<String, FileError>)
    requires
        table.wf(),
    ensures
        match read_check(table.entries@, unit) {
            Err(e) => r == Err::<String, FileError>(e),
            Ok(_) => if raw@.len() == 0 {
                r == Err::<String, FileError>(FileError::EndOfFile { unit })
            } else {
                r matches Ok(s) && s@ == line_text(raw@)
            },
        },
{
    match check_read(table, unit) {
        Err(e) => Err(e),
        Ok(_) => {
            let c = crate::text::chars_of(raw);
            if c.len() == 0 {
                Err(FileError::EndOfFile { unit })
            } else {
                Ok(line_of(raw))
            }
        },
    }
}

/// READS from a unit: as READ, but the end of the file gives an empty string.
pub fn rosy_reads_string_from_unit(table: &UnitTable, unit: u64, raw: &str) -> (r: Result<String, FileError>)
    requires
        table.wf(),
    ensures
        match read_check(table.entries@, unit) {
            Err(e) => r == Err::<String, FileError>(e),
            Ok(_) => r matches Ok(s) && s@ == line_text(raw@),
        },
{
    match check_read(table, unit) {
        Err(e) => Err(e),
        Ok(_) => Ok(line_of(raw)),
    }
}

/// A WRITEB record: the data's length in eight little-endian bytes, then the data.
pub open spec fn frame(data: Seq<u8>) -> Seq<u8> {
    le_bytes(data.len(), 8) + data
}

/// WRITEB to a unit: the bytes to append to the unit's file, once it is open for writing.
pub fn rosy_writeb_to_unit(table: &UnitTable, unit: u64, data: &[u8]) -> (r: Result<Vec<u8>, FileError>)
    requires
        table.wf(),
    ensures
        match write_check(table.entries@, unit) {
            Err(e) => r == Err::<Vec<u8>, FileError>(e),
            Ok(_) => r matches Ok(v) && v@ == frame(data@),
        },
{
    match check_write(table, unit) {
        Err(e) => Err(e),
        Ok(_) => {
            let mut out = le_u64_bytes(data.len() as u64);
            let ghost pre = out@;
            let mut i: usize = 0;
            while i < data.len()
                invariant
                    i <= data@.len(),
                    out@ == pre + data@.take(i as int),
                decreases data@.len() - i,
            {
                out.push(data[i]);
                proof {
                    assert(data@.take(i + 1) =~= data@.take(i as int).push(data@[i as int]));
                    assert(out@ =~= pre + data@.take(i + 1));
                }
                i = i + 1;
            }
            proof {
                assert(data@.take(i as int) =~= data@);
            }
            Ok(out)
        },
    }
}

/// The record READB takes from `stream`: `None` when the length prefix is missing,
/// `Some(None)` when the data is shorter than announced.
pub open spec fn unframe(stream: Seq<u8>) -> Option<Option<Seq<u8>>> {
    if stream.len() < 8 {
        None
    } else if stream.len() - 8 < le_value(stream.take(8)) {
        Some(None)
    } else {
        Some(Some(stream.subrange(8, 8 + le_value(stream.take(8)) as int)))
    }
}

/// READB from a unit: `stream` is what the unit's file holds from the current position on.
/// Refused when the unit is not open for reading, or when the stream ends inside the length
/// prefix or the data; otherwise the record's data (the record spans `8 + data.len()` bytes).
pub fn rosy_readb_from_unit(table: &UnitTable, unit: u64, stream: &[u8]) -> (r: Result<Vec<u8>, FileError>)
    requires
        table.wf(),
    ensures
        match read_check(table.entries@, unit) {
            Err(e) => r == Err::<Vec<u8>, FileError>(e),
            Ok(_) => match unframe(stream@) {
                None => r == Err::<Vec<u8>, FileError>(FileError::LengthPrefixMissing { unit }),
                Some(None) => r == Err::<Vec<u8>, FileError>(FileError::DataMissing { unit }),
                Some(Some(d)) => r matches Ok(v) && v@ == d,
            },
        },
{
    match check_read(table, unit) {
        Err(e) => Err(e),
        Ok(_) => {
            if stream.len() < 8 {
                return Err(FileError::LengthPrefixMissing { unit });
            }
            let n = le_u64_at(stream, 0);
            proof {
                assert(stream@.subrange(0, 8) =~= stream@.take(8));
            }
            if ((stream.len() - 8) as u64) < n {
                return Err(FileError::DataMissing { unit });
            }
            let end: usize = 8 + (n as usize);
            let mut data: Vec<u8> = Vec::new();
            let mut i: usize = 8;
            while i < end
                invariant
                    8 <= i <= end,
                    end <= stream@.len(),
                    data@ == stream@.subrange(8, i as int),
                decreases end - i,
            {
                data.push(stream[i]);
                proof {
                    assert(data@ =~= stream@.subrange(8, i + 1));
                }
                i = i + 1;
            }
            Ok(data)
        },
    }
}

/// A WRITEB record read back by READB gives the data that was written (for data whose length
/// fits in eight bytes), whatever follows it.
pub proof fn law_binary_record_roundtrip(data: Seq<u8>, rest: Seq<u8>)
    requires
        data.len() < crate::binary::pow256(8),
    ensures
        unframe(frame(data) + rest) == Some(Some(data)),
{
    let s = frame(data) + rest;
    crate::binary::lemma_le_bytes_len(data.len(), 8);
    crate::binary::lemma_le_roundtrip(data.len(), 8);
    assert(s.take(8) =~= le_bytes(data.len(), 8));
    assert(s.subrange(8, 8 + data.len() as int) =~= data);
}

/// WRITEB to a file opened with `replace`, then READB after it is opened again with `old`:
/// the write is taken, the read is taken, the file (the one record written, as `replace`
/// truncates) reads back as the data, and a second READB finds no length prefix left (for
/// data whose length fits in eight bytes).
pub proof fn law_writeb_then_readb(written: Seq<UnitEntry>, reread: Seq<UnitEntry>, unit: u64, data: Seq<u8>)
    requires
        mode_of(written, unit) == Some(OpenMode::Replace),
        mode_of(reread, unit) == Some(OpenMode::ReadOld),
        data.len() < crate::binary::pow256(8),
    ensures
        write_check(written, unit) == Ok::<(), FileError>(()),
        read_check(reread, unit) == Ok::<(), FileError>(()),
        unframe(frame(data)) == Some(Some(data)),
        unframe(frame(data).skip(8 + data.len() as int)) is None,
{
    law_binary_record_roundtrip(data, Seq::empty());
    assert(frame(data) + Seq::<u8>::empty() =~= frame(data));
    crate::binary::lemma_le_bytes_len(data.len(), 8);
    assert(frame(data).skip(8 + data.len() as int) =~= Seq::<u8>::empty());
}

/// A unit opened in mode `m` takes a write exactly when `m` writes, and a read exactly when
/// `m` reads (`unknown` both, `replace` and `new` writes only, `old` reads only).
pub proof fn law_mode_decides_io(e: Seq<UnitEntry>, unit: u64, m: OpenMode)
    requires
        mode_of(e, unit) == Some(m),
    ensures
        write_check(e, unit) == (if m.can_write() { Ok::<(), FileError>(()) } else { Err(FileError::NotWritable { unit }) }),
        read_check(e, unit) == (if m.can_read() { Ok::<(), FileError>(()) } else { Err(FileError::NotReadable { unit }) }),
        m == OpenMode::ReadWrite ==> m.can_read() && m.can_write(),
        m == OpenMode::ReadOld ==> m.can_read() && !m.can_write(),
        (m == OpenMode::Replace || m == OpenMode::WriteNew) ==> !m.can_read() && m.can_write(),
{
}

/// A unit that is not open (never opened, closed, or refused an unknown status) refuses
/// reads and writes alike.
pub proof fn law_closed_unit_refuses(e: Seq<UnitEntry>, unit: u64)
    requires
        entry_of(e, unit) is None,
    ensures
        write_check(e, unit) == Err::<(), FileError>(FileError::NoFileOpen { unit }),
        read_check(e, unit) == Err::<(), FileError>(FileError::NoFileOpen { unit }),
{
}

/// Index of the last `b` among the first `end` bytes of `s`, or -1 when there is none.
pub open spec fn last_index_before(s: Seq<u8>, b: u8, end: int) -> int
    decreases end,
{
    if end <= 0 {
        -1
    } else if s[end - 1] == b {
        end - 1
    } else {
        last_index_before(s, b, end - 1)
    }
}

/// Where BACKF leaves a reader that has read the bytes `s`: at the start of the record
/// before the one that the last line break ends (the start of the file when there is none).
pub open spec fn backf_position_spec(s: Seq<u8>) -> int {
    let last = last_index_before(s, 10u8, s.len() as int);
    let search_end = if last >= 0 { last } else { s.len() as int };
    last_index_before(s, 10u8, search_end) + 1
}

/// `last_index_before` by a backward scan.
fn last_index_of_byte(s: &[u8], b: u8, end: usize) -> (r: Option<usize>)
    requires
        end <= s@.len(),
    ensures
        match r {
            Some(i) => i < end && i as int == last_index_before(s@, b, end as int),
            None => last_index_before(s@, b, end as int) == -1,
        },
{
    let mut k = end;
    while k > 0
        invariant
            k <= end,
            end <= s@.len(),
            last_index_before(s@, b, end as int) == last_index_before(s@, b, k as int),
        decreases k,
    {
        if s[k - 1] == b {
            return Some(k - 1);
        }
        k = k - 1;
    }
    None
}

/// The read position BACKF moves to, given the bytes read so far.
pub fn backf_position(read_so_far: &[u8]) -> (r: usize)
    ensures
        r as int == backf_position_spec(read_so_far@),
{
    let n = read_so_far.len();
    let search_end = match last_index_of_byte(read_so_far, 10u8, n) {
        Some(i) => i,
        None => n,
    };
    match last_index_of_byte(read_so_far, 10u8, search_end) {
        Some(i) => i + 1,
        None => 0,
    }
}

/// BACKF on a unit: `read_so_far` is what the unit's reader has read since the start of
/// the file. A unit that is not open, or not open for reading, is left alone (`None`);
/// otherwise the reader moves back to `Some` position, the start of the previous record.
pub fn rosy_backf(table: &UnitTable, unit: u64, read_so_far: &[u8]) -> (r: Option<usize>)
    requires
        table.wf(),
    ensures
        match mode_of(table.entries@, unit) {
            Some(m) if m.can_read() => r == Some(backf_position_spec(read_so_far@) as usize),
            _ => r is None,
        },
{
    match table.unit_mode(unit) {
        Some(m) => if m.readable() {
            Some(backf_position(read_so_far))
        } else {
            None
        },
        None => None,
    }
}

} // verus!
