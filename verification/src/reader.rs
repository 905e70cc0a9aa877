use vstd::prelude::*;
use vstd::string::StringExecFns;
use std::marker::PhantomData;
use crate::text::{decimal, push_decimal, utf8_lossy, utf8_string};
use crate::graph::{edge_list_set, block_list_push, block_list_slice, block_list_at, edge_list_push, edge_list_slice, index_list_insert, index_list_push, index_list_slice, line_list_push, ident_map_new, ident_map_insert, ident_map_get, GcovEdge, GcovBlock, GcovFunction, BlockView, FunView, new_block, flag_on_tree, graph_wf, ident_map, line_counts, block_list, edge_list, index_list, line_list, blocks_view};
use rustc_hash::FxHashMap;

verus! {

/// Why a gcno or gcda file could not be read.
#[derive(Debug)]
pub enum GcovReaderError {
    Io(std::io::Error),
    Str(String),
}

/// A read error as a spec value; an I/O error is known only by its kind.
pub enum ReadErrorView {
    Io,
    Str(Seq<char>),
}

impl View for GcovReaderError {
    type V = ReadErrorView;

    open spec fn view(&self) -> ReadErrorView {
        match self {
            GcovReaderError::Io(_) => ReadErrorView::Io,
            GcovReaderError::Str(s) => ReadErrorView::Str(s@),
        }
    }
}

/// The byte order of a file.
pub trait Endian {
    spec fn little() -> bool;

    fn is_little_endian() -> (r: bool)
        ensures
            r == Self::little(),
    ;
}

/// Least significant byte first.
pub struct LittleEndian;

impl Endian for LittleEndian {
    open spec fn little() -> bool {
        true
    }

    fn is_little_endian() -> (r: bool) {
        true
    }
}

/// Most significant byte first.
pub struct BigEndian;

impl Endian for BigEndian {
    open spec fn little() -> bool {
        false
    }

    fn is_little_endian() -> (r: bool) {
        false
    }
}

/// The 32-bit number whose bytes, least significant first, are given.
pub open spec fn u32_of(b0: u8, b1: u8, b2: u8, b3: u8) -> u32 {
    (b0 + 256 * b1 + 65536 * b2 + 16777216 * b3) as u32
}

/// The word at `p`, in the given byte order.
pub open spec fn word_at(buf: Seq<u8>, p: int, little: bool) -> u32 {
    if little {
        u32_of(buf[p], buf[p + 1], buf[p + 2], buf[p + 3])
    } else {
        u32_of(buf[p + 3], buf[p + 2], buf[p + 1], buf[p])
    }
}

/// What a read does: a value and the position after it, an error message and
/// the position after the attempt, or a panic of the reader.
pub enum Read<T> {
    Done(T, int),
    Fail(Seq<char>, int),
    Panic,
}

pub open spec fn msg_integer(stem: Seq<char>) -> Seq<char> {
    "Not enough data in buffer: cannot read integer in "@ + stem
}

pub open spec fn msg_string(stem: Seq<char>) -> Seq<char> {
    "Not enough data in buffer: cannot read string in "@ + stem
}

pub open spec fn msg_skip(n: int, stem: Seq<char>) -> Seq<char> {
    "Not enough data in buffer: cannot skip "@ + decimal(n as nat) + " bytes in "@ + stem
}

pub open spec fn msg_version_short(stem: Seq<char>) -> Seq<char> {
    "Not enough data in buffer: Cannot read version in "@ + stem
}

pub open spec fn msg_version(bytes: Seq<u8>, stem: Seq<char>) -> Seq<char> {
    "Unexpected version: "@ + utf8_lossy(bytes) + " in "@ + stem
}

/// Reading a word at `p`.
pub open spec fn read_word(buf: Seq<u8>, p: int, little: bool, stem: Seq<char>) -> Read<u32> {
    if p + 4 > usize::MAX {
        Read::Panic
    } else if p + 4 <= buf.len() {
        Read::Done(word_at(buf, p, little), p + 4)
    } else {
        Read::Fail(msg_integer(stem), p + 4)
    }
}

/// Reading a 64-bit counter at `p`: the low word, then the high word.
pub open spec fn read_counter_at(buf: Seq<u8>, p: int, little: bool, stem: Seq<char>) -> Read<u64> {
    match read_word(buf, p, little, stem) {
        Read::Done(lo, q) => match read_word(buf, q, little, stem) {
            Read::Done(hi, r) => Read::Done((hi * 4294967296 + lo) as u64, r),
            Read::Fail(m, r) => Read::Fail(m, r),
            Read::Panic => Read::Panic,
        },
        Read::Fail(m, q) => Read::Fail(m, q),
        Read::Panic => Read::Panic,
    }
}

/// Skipping `n` bytes at `p`; it fails unless some byte is left after them.
pub open spec fn skip_at(buf: Seq<u8>, p: int, n: int, stem: Seq<char>) -> Read<()> {
    if p + n > usize::MAX {
        Read::Panic
    } else if p + n < buf.len() {
        Read::Done((), p + n)
    } else {
        Read::Fail(msg_skip(n, stem), p + n)
    }
}

/// The length of `b` once its trailing zero bytes are cut off.
pub open spec fn trimmed_len(b: Seq<u8>) -> int
    decreases b.len(),
{
    if b.len() == 0 {
        0
    } else if b.last() != 0 {
        b.len() as int
    } else {
        trimmed_len(b.drop_last())
    }
}

/// Reading a string at `p`: its length in words, then the words, whose
/// trailing zero bytes are padding.
pub open spec fn read_string_at(buf: Seq<u8>, p: int, little: bool, stem: Seq<char>) -> Read<Seq<char>> {
    match read_word(buf, p, little, stem) {
        Read::Done(n, q) => {
            if n == 0 {
                Read::Done(Seq::empty(), q)
            } else if 4 * n > usize::MAX || q + 4 * n > usize::MAX {
                Read::Panic
            } else if q + 4 * n <= buf.len() {
                let bytes = buf.subrange(q, q + 4 * n);
                if trimmed_len(bytes) == 0 {
                    Read::Panic
                } else {
                    Read::Done(utf8_lossy(bytes.subrange(0, trimmed_len(bytes))), q + 4 * n)
                }
            } else {
                Read::Fail(msg_string(stem), q + 4 * n)
            }
        },
        Read::Fail(m, q) => Read::Fail(m, q),
        Read::Panic => Read::Panic,
    }
}

/// Whether a version byte can be read by [`version_of`] without underflow.
pub open spec fn version_digits_ok(b0: u8, b1: u8, b2: u8) -> bool {
    if b2 >= 65 {
        b1 >= 48 && b0 >= 48
    } else {
        b2 >= 48 && b0 >= 48
    }
}

/// The version number written in three characters, least significant first:
/// a letter for the hundreds past `A`, then tens and units; or a digit for
/// the tens and one for the units (the middle one is ignored).
pub open spec fn version_of(b0: u8, b1: u8, b2: u8) -> u32 {
    if b2 >= 65 {
        (100 * (b2 - 65) + 10 * (b1 - 48) + (b0 - 48)) as u32
    } else {
        (10 * (b2 - 48) + (b0 - 48)) as u32
    }
}

/// Reading the version word at `p`: a `*` then three characters, in the
/// file's byte order.
pub open spec fn read_version_at(buf: Seq<u8>, p: int, little: bool, stem: Seq<char>) -> Read<u32> {
    if p + 4 > usize::MAX {
        Read::Panic
    } else if p + 4 <= buf.len() {
        if little && buf[p] == 42 {
            if version_digits_ok(buf[p + 1], buf[p + 2], buf[p + 3]) {
                Read::Done(version_of(buf[p + 1], buf[p + 2], buf[p + 3]), p + 4)
            } else {
                Read::Panic
            }
        } else if !little && buf[p + 3] == 42 {
            if version_digits_ok(buf[p + 2], buf[p + 1], buf[p]) {
                Read::Done(version_of(buf[p + 2], buf[p + 1], buf[p]), p + 4)
            } else {
                Read::Panic
            }
        } else {
            Read::Fail(msg_version(buf.subrange(p, p + 4), stem), p + 4)
        }
    } else {
        Read::Fail(msg_version_short(stem), p)
    }
}

/// Whether a read result and the reader after it agree with a spec read.
pub open spec fn read_agrees<T, U>(r: Result<U, GcovReaderError>, v: spec_fn(U) -> T, at: int, s: Read<T>) -> bool {
    match s {
        Read::Done(x, q) => r is Ok && v(r->Ok_0) == x && at == q,
        Read::Fail(m, q) => r is Err && r->Err_0@ == ReadErrorView::Str(m) && at == q,
        Read::Panic => false,
    }
}

/// Whether a read that may stop short (`None`) agrees with a spec read:
/// `None` exactly where the spec read cannot go on.
pub open spec fn opt_read_agrees<T, U>(r: Option<Result<U, GcovReaderError>>, v: spec_fn(U) -> T, at: int, s: Read<T>) -> bool {
    match s {
        Read::Panic => r is None,
        _ => r is Some && read_agrees(r->0, v, at, s),
    }
}

/// Whether the position of a reader is within its bytes, which leave room
/// for the position to move a few words past their end.
pub open spec fn sane(buf: Seq<u8>, p: int) -> bool {
    0 <= p <= buf.len() && buf.len() + 8 <= usize::MAX
}

/// A reader of the words, counters and strings of a gcno or gcda file.
pub trait GcovReader<E: Endian>: Sized {
    /// The bytes of the file.
    spec fn data(&self) -> Seq<u8>;

    /// The position of the next read.
    spec fn at(&self) -> int;

    /// The name of the file, for messages.
    spec fn stem_chars(&self) -> Seq<char>;

    fn read_string(&mut self) -> (r: Result<String, GcovReaderError>)
        requires
            !(read_string_at(old(self).data(), old(self).at(), E::little(), old(self).stem_chars()) is Panic),
        ensures
            final(self).data() == old(self).data(),
            final(self).stem_chars() == old(self).stem_chars(),
            read_agrees(r, |s: String| s@, final(self).at(),
                read_string_at(old(self).data(), old(self).at(), E::little(), old(self).stem_chars())),
    ;

    fn read_u32(&mut self) -> (r: Result<u32, GcovReaderError>)
        requires
            !(read_word(old(self).data(), old(self).at(), E::little(), old(self).stem_chars()) is Panic),
        ensures
            final(self).data() == old(self).data(),
            final(self).stem_chars() == old(self).stem_chars(),
            read_agrees(r, |x: u32| x, final(self).at(),
                read_word(old(self).data(), old(self).at(), E::little(), old(self).stem_chars())),
    ;

    fn read_counter(&mut self) -> (r: Result<u64, GcovReaderError>)
        requires
            !(read_counter_at(old(self).data(), old(self).at(), E::little(), old(self).stem_chars()) is Panic),
        ensures
            final(self).data() == old(self).data(),
            final(self).stem_chars() == old(self).stem_chars(),
            read_agrees(r, |x: u64| x, final(self).at(),
                read_counter_at(old(self).data(), old(self).at(), E::little(), old(self).stem_chars())),
    ;

    fn get_version(&self, buf: &[u8]) -> (r: u32)
        requires
            buf@.len() == 3,
            version_digits_ok(buf@[0], buf@[1], buf@[2]),
        ensures
            r == version_of(buf@[0], buf@[1], buf@[2]),
    ;

    fn read_version(&mut self) -> (r: Result<u32, GcovReaderError>)
        requires
            !(read_version_at(old(self).data(), old(self).at(), E::little(), old(self).stem_chars()) is Panic),
        ensures
            final(self).data() == old(self).data(),
            final(self).stem_chars() == old(self).stem_chars(),
            read_agrees(r, |x: u32| x, final(self).at(),
                read_version_at(old(self).data(), old(self).at(), E::little(), old(self).stem_chars())),
    ;

    fn get_pos(&self) -> (r: usize)
        ensures
            r == self.at(),
    ;

    fn get_stem(&self) -> (r: &str)
        ensures
            r@ == self.stem_chars(),
    ;

    fn skip_u32(&mut self) -> (r: Result<(), GcovReaderError>)
        requires
            !(skip_at(old(self).data(), old(self).at(), 4, old(self).stem_chars()) is Panic),
        ensures
            final(self).data() == old(self).data(),
            final(self).stem_chars() == old(self).stem_chars(),
            read_agrees(r, |x: ()| x, final(self).at(),
                skip_at(old(self).data(), old(self).at(), 4, old(self).stem_chars())),
    ;

    fn skip(&mut self, len: usize) -> (r: Result<(), GcovReaderError>)
        requires
            !(skip_at(old(self).data(), old(self).at(), len as int, old(self).stem_chars()) is Panic),
        ensures
            final(self).data() == old(self).data(),
            final(self).stem_chars() == old(self).stem_chars(),
            read_agrees(r, |x: ()| x, final(self).at(),
                skip_at(old(self).data(), old(self).at(), len as int, old(self).stem_chars())),
    ;

    fn is_little_endian(&self) -> (r: bool)
        ensures
            r == E::little(),
    {
        E::is_little_endian()
    }

    /// Whether reading a string here panics.
    fn string_panics(&self) -> (r: bool)
        ensures
            r == (read_string_at(self.data(), self.at(), E::little(), self.stem_chars()) is Panic),
    ;

    /// Whether reading the version here panics.
    fn version_panics(&self) -> (r: bool)
        ensures
            r == (read_version_at(self.data(), self.at(), E::little(), self.stem_chars()) is Panic),
    ;
}

/// A reader over a file held in memory.
pub struct GcovReaderBuf<E: Endian> {
    stem: String,
    buffer: Vec<u8>,
    pos: usize,
    phantom: PhantomData<E>,
}

impl<E: Endian> GcovReaderBuf<E> {
    /// The bytes read.
    pub closed spec fn bytes(&self) -> Seq<u8> {
        self.buffer@
    }

    /// A reader at the word after the magic number.
    pub fn new(stem: &str, buffer: Vec<u8>) -> (r: GcovReaderBuf<E>)
        ensures
            r.data() == buffer@,
            r.at() == 4,
            r.stem_chars() == stem@,
    {
        GcovReaderBuf { stem: stem.to_owned(), buffer, pos: 4, phantom: PhantomData }
    }

    fn error_text(&self, head: &str) -> (e: GcovReaderError)
        ensures
            e@ == ReadErrorView::Str(head@ + self.stem@),
    {
        let mut m = head.to_owned();
        m.append(self.stem.as_str());
        GcovReaderError::Str(m)
    }

    /// The word at `start`, in this file's byte order.
    fn word(&self, start: usize) -> (r: u32)
        requires
            start + 4 <= self.buffer@.len(),
        ensures
            r == word_at(self.buffer@, start as int, E::little()),
    {
        let n = self.buffer.len();
        let b0 = self.buffer[start] as u32;
        let b1 = self.buffer[start + 1] as u32;
        let b2 = self.buffer[start + 2] as u32;
        let b3 = self.buffer[start + 3] as u32;
        if E::is_little_endian() {
            b0 + 256 * b1 + 65536 * b2 + 16777216 * b3
        } else {
            b3 + 256 * b2 + 65536 * b1 + 16777216 * b0
        }
    }
}

impl<E: Endian> GcovReader<E> for GcovReaderBuf<E> {
    open spec fn data(&self) -> Seq<u8> {
        self.bytes()
    }

    closed spec fn at(&self) -> int {
        self.pos as int
    }

    closed spec fn stem_chars(&self) -> Seq<char> {
        self.stem@
    }

    fn get_stem(&self) -> (r: &str) {
        self.stem.as_str()
    }

    fn skip_u32(&mut self) -> (r: Result<(), GcovReaderError>) {
        self.skip(4)
    }

    fn skip(&mut self, len: usize) -> (r: Result<(), GcovReaderError>) {
        self.pos += len;
        if self.pos < self.buffer.len() {
            Ok(())
        } else {
            let mut m = "Not enough data in buffer: cannot skip ".to_owned();
            push_decimal(&mut m, len as u64);
            m.append(" bytes in ");
            m.append(self.stem.as_str());
            Err(GcovReaderError::Str(m))
        }
    }

    fn read_string(&mut self) -> (r: Result<String, GcovReaderError>) {
        let len = self.read_u32()?;
        if len == 0 {
            return Ok(String::new());
        }
        let len = len as usize * 4;
        let start = self.pos;
        self.pos += len;
        if self.pos <= self.buffer.len() {
            let ghost bytes = self.buffer@.subrange(start as int, self.pos as int);
            let mut i = len;
            assert(bytes.subrange(0, len as int) =~= bytes);
            while i > 0 && self.buffer[start + i - 1] == 0
                invariant
                    i <= len,
                    start + len == self.pos <= self.buffer@.len(),
                    bytes == self.buffer@.subrange(start as int, start + len),
                    trimmed_len(bytes) == trimmed_len(bytes.subrange(0, i as int)),
                decreases i,
            {
                assert(bytes.subrange(0, i as int).drop_last() =~= bytes.subrange(0, i - 1));
                i -= 1;
            }
            if i > 0 {
                assert(trimmed_len(bytes.subrange(0, i as int)) == i);
            } else {
                assert(bytes.subrange(0, 0) =~= Seq::<u8>::empty());
            }
            assert(bytes.subrange(0, len as int) =~= bytes);
            let text = utf8_string(&self.buffer.as_slice()[start..start + i]);
            assert(self.buffer@.subrange(start as int, start + i) =~= bytes.subrange(0, i as int));
            Ok(text)
        } else {
            Err(self.error_text("Not enough data in buffer: cannot read string in "))
        }
    }

    fn read_u32(&mut self) -> (r: Result<u32, GcovReaderError>) {
        let start = self.pos;
        self.pos += 4;
        if self.pos <= self.buffer.len() {
            Ok(self.word(start))
        } else {
            Err(self.error_text("Not enough data in buffer: cannot read integer in "))
        }
    }

    fn read_counter(&mut self) -> (r: Result<u64, GcovReaderError>) {
        let lo = self.read_u32()?;
        let hi = self.read_u32()?;
        Ok((hi as u64) * 4294967296 + lo as u64)
    }

    fn get_version(&self, buf: &[u8]) -> (r: u32) {
        if buf[2] >= 65 {
            100 * ((buf[2] - 65) as u32) + 10 * ((buf[1] - 48) as u32) + ((buf[0] - 48) as u32)
        } else {
            10 * ((buf[2] - 48) as u32) + ((buf[0] - 48) as u32)
        }
    }

    fn read_version(&mut self) -> (r: Result<u32, GcovReaderError>) {
        let i = self.pos;
        if i + 4 <= self.buffer.len() {
            self.pos += 4;
            if E::is_little_endian() && self.buffer[i] == 42 {
                let buf = [self.buffer[i + 1], self.buffer[i + 2], self.buffer[i + 3]];
                Ok(self.get_version(buf.as_slice()))
            } else if !E::is_little_endian() && self.buffer[i + 3] == 42 {
                let buf = [self.buffer[i + 2], self.buffer[i + 1], self.buffer[i]];
                Ok(self.get_version(buf.as_slice()))
            } else {
                let text = utf8_string(&self.buffer.as_slice()[i..i + 4]);
                let mut m = "Unexpected version: ".to_owned();
                m.append(text.as_str());
                m.append(" in ");
                m.append(self.stem.as_str());
                Err(GcovReaderError::Str(m))
            }
        } else {
            Err(self.error_text("Not enough data in buffer: Cannot read version in "))
        }
    }

    fn get_pos(&self) -> (r: usize) {
        self.pos
    }

    fn string_panics(&self) -> (r: bool) {
        let p = self.pos;
        if p > usize::MAX - 4 {
            return true;
        }
        if p + 4 > self.buffer.len() {
            return false;
        }
        let n = self.word(p);
        if n == 0 {
            return false;
        }
        let q = p + 4;
        let len = match (n as usize).checked_mul(4) {
            Some(x) => x,
            None => return true,
        };
        let end = match q.checked_add(len) {
            Some(x) => x,
            None => return true,
        };
        if end > self.buffer.len() {
            return false;
        }
        let ghost bytes = self.buffer@.subrange(q as int, end as int);
        let mut i = len;
        assert(bytes.subrange(0, len as int) =~= bytes);
        while i > 0 && self.buffer[q + i - 1] == 0
            invariant
                i <= len,
                q + len == end <= self.buffer@.len(),
                bytes == self.buffer@.subrange(q as int, end as int),
                trimmed_len(bytes) == trimmed_len(bytes.subrange(0, i as int)),
            decreases i,
        {
            assert(bytes.subrange(0, i as int).drop_last() =~= bytes.subrange(0, i - 1));
            i -= 1;
        }
        if i > 0 {
            assert(trimmed_len(bytes.subrange(0, i as int)) == i);
        } else {
            assert(bytes.subrange(0, 0) =~= Seq::<u8>::empty());
        }
        i == 0
    }

    fn version_panics(&self) -> (r: bool) {
        let p = self.pos;
        if p > usize::MAX - 4 {
            return true;
        }
        if p + 4 > self.buffer.len() {
            return false;
        }
        let b0 = self.buffer[p];
        let b1 = self.buffer[p + 1];
        let b2 = self.buffer[p + 2];
        let b3 = self.buffer[p + 3];
        let (c0, c1, c2) = if E::is_little_endian() && b0 == 42 {
            (b1, b2, b3)
        } else if !E::is_little_endian() && b3 == 42 {
            (b2, b1, b0)
        } else {
            return false;
        };
        if c2 >= 65 {
            !(c1 >= 48 && c0 >= 48)
        } else {
            !(c2 >= 48 && c0 >= 48)
        }
    }
}

pub const GCOV_TAG_FUNCTION: u32 = 0x0100_0000;
pub const GCOV_TAG_BLOCKS: u32 = 0x0141_0000;
pub const GCOV_TAG_ARCS: u32 = 0x0143_0000;
pub const GCOV_TAG_LINES: u32 = 0x0145_0000;
pub const GCOV_TAG_COUNTER_ARCS: u32 = 0x01a1_0000;
pub const GCOV_TAG_OBJECT_SUMMARY: u32 = 0xa100_0000;
pub const GCOV_TAG_PROGRAM_SUMMARY: u32 = 0xa300_0000;

/// The flow graphs of a compilation unit, with the counts of its runs.
pub struct Gcno {
    pub version: u32,
    pub checksum: u32,
    pub cwd: Option<String>,
    pub programcounts: u32,
    pub runcounts: u32,
    pub functions: Vec<GcovFunction>,
    pub ident_to_fun: FxHashMap<u32, usize>,
}

/// A compilation unit as a spec value.
pub struct GcnoView {
    pub version: u32,
    pub checksum: u32,
    pub cwd: Option<Seq<char>>,
    pub programcounts: u32,
    pub runcounts: u32,
    pub functions: Seq<FunView>,
    pub ident: Map<u32, usize>,
}

/// The functions of a vector, as spec values.
pub open spec fn functions_view(v: Seq<GcovFunction>) -> Seq<FunView> {
    v.map_values(|f: GcovFunction| f@)
}

/// An optional string as a spec value.
pub open spec fn opt_chars(o: Option<String>) -> Option<Seq<char>> {
    match o {
        Some(s) => Some(s@),
        None => None,
    }
}

impl View for Gcno {
    type V = GcnoView;

    open spec fn view(&self) -> GcnoView {
        GcnoView {
            version: self.version,
            checksum: self.checksum,
            cwd: opt_chars(self.cwd),
            programcounts: self.programcounts,
            runcounts: self.runcounts,
            functions: functions_view(self.functions@),
            ident: ident_map(self.ident_to_fun),
        }
    }
}

/// Whether the arcs of every function are well formed and every identifier
/// names a function.
pub open spec fn gcno_wf(g: GcnoView) -> bool {
    &&& forall|i: int| 0 <= i < g.functions.len() ==> #[trigger] graph_wf(g.functions[i])
    &&& forall|id: u32| #[trigger] g.ident.contains_key(id) ==> g.ident[id] < g.functions.len()
}

/// Chaining a read with what follows it.
pub open spec fn bind<T, U>(r: Read<T>, f: spec_fn(T, int) -> Read<U>) -> Read<U> {
    match r {
        Read::Done(x, q) => f(x, q),
        Read::Fail(m, q) => Read::Fail(m, q),
        Read::Panic => Read::Panic,
    }
}

/// A function with the given header and no flow graph yet.
pub open spec fn new_function(
    identifier: u32,
    line_checksum: u32,
    cfg_checksum: u32,
    name: Seq<char>,
    artificial: u32,
    file_name: Seq<char>,
    start_line: u32,
    start_column: u32,
    end_line: u32,
    end_column: u32,
) -> FunView {
    FunView {
        identifier,
        start_line,
        start_column,
        end_line,
        end_column,
        artificial,
        line_checksum,
        cfg_checksum,
        file_name,
        name,
        blocks: Seq::empty(),
        edges: Seq::empty(),
        real_edge_count: 0,
        lines: Map::empty(),
        executed: false,
    }
}

/// Reading a function header at `p`; which fields it has depends on the version.
pub open spec fn read_fn_header(buf: Seq<u8>, p: int, l: bool, stem: Seq<char>, version: u32) -> Read<FunView> {
    bind(read_word(buf, p, l, stem), |identifier: u32, p1: int|
    bind(read_word(buf, p1, l, stem), |line_checksum: u32, p2: int|
    bind(if version >= 47 { read_word(buf, p2, l, stem) } else { Read::Done(0u32, p2) }, |cfg: u32, p3: int|
    bind(read_string_at(buf, p3, l, stem), |name: Seq<char>, p4: int|
    if version < 80 {
        bind(read_string_at(buf, p4, l, stem), |file_name: Seq<char>, p5: int|
        bind(read_word(buf, p5, l, stem), |start_line: u32, p6: int|
        Read::Done(new_function(identifier, line_checksum, cfg, name, 0, file_name, start_line, 0, 0, 0), p6)))
    } else {
        bind(read_word(buf, p4, l, stem), |artificial: u32, p5: int|
        bind(read_string_at(buf, p5, l, stem), |file_name: Seq<char>, p6: int|
        bind(read_word(buf, p6, l, stem), |start_line: u32, p7: int|
        bind(read_word(buf, p7, l, stem), |start_column: u32, p8: int|
        bind(read_word(buf, p8, l, stem), |end_line: u32, p9: int|
        bind(if version >= 90 { read_word(buf, p9, l, stem) } else { Read::Done(0u32, p9) }, |end_column: u32, p10: int|
        Read::Done(new_function(identifier, line_checksum, cfg, name, artificial, file_name,
            start_line, start_column, end_line, end_column), p10)))))))
    }))))
}

/// A function with blocks numbered `0..n` appended.
pub open spec fn with_new_blocks(f: FunView, n: nat) -> FunView {
    FunView { blocks: f.blocks + Seq::new(n, |i: int| new_block(i as usize)), ..f }
}

/// Reading the blocks of an old gcno: one flag word per block, `n` of them,
/// each skip failing unless a byte is left after it.
pub open spec fn skip_blocks(buf: Seq<u8>, p: int, stem: Seq<char>, k: nat, n: nat, f: FunView) -> Read<FunView>
    decreases n - k,
{
    if k >= n {
        Read::Done(f, p)
    } else {
        match skip_at(buf, p, 4, stem) {
            Read::Done(_, q) => skip_blocks(buf, q, stem, k + 1, n,
                FunView { blocks: f.blocks.push(new_block(k as usize)), ..f }),
            Read::Fail(m, q) => Read::Fail(m, q),
            Read::Panic => Read::Panic,
        }
    }
}

/// Reading a blocks record of length `length` at `p`.
pub open spec fn read_blocks_at(buf: Seq<u8>, p: int, l: bool, stem: Seq<char>, length: u32, version: u32, f: FunView) -> Read<FunView> {
    if version < 80 {
        skip_blocks(buf, p, stem, 0, length as nat, f)
    } else {
        bind(read_word(buf, p, l, stem), |n: u32, q: int| Read::Done(with_new_blocks(f, n as nat), q))
    }
}

/// Where a new arc to block `d` goes among the arcs `dest` out of a block:
/// after every arc whose end is not past `d`.
pub open spec fn insert_pos(dest: Seq<usize>, edges: Seq<GcovEdge>, d: usize) -> int
    decreases dest.len(),
{
    if dest.len() == 0 {
        0
    } else if edges[dest[0] as int].destination > d {
        0
    } else {
        1 + insert_pos(dest.drop_first(), edges, d)
    }
}

/// A block with an arc index appended to its arcs in.
pub open spec fn with_source(b: BlockView, e: usize) -> BlockView {
    BlockView { source: b.source.push(e), ..b }
}

/// A block with an arc index put among its arcs out, by end block.
pub open spec fn with_destination(b: BlockView, e: usize, edges: Seq<GcovEdge>, d: usize) -> BlockView {
    BlockView { destination: b.destination.insert(insert_pos(b.destination, edges, d), e), ..b }
}

/// A function with the arc `src -> dst` added.
pub open spec fn with_arc(f: FunView, src: usize, dst: usize, flags: u32) -> FunView {
    let e = f.edges.len() as usize;
    let edges = f.edges.push(GcovEdge { source: src, destination: dst, flags, counter: 0, cycles: 0 });
    let blocks = f.blocks.update(src as int, with_destination(f.blocks[src as int], e, edges, dst));
    FunView {
        edges,
        blocks: blocks.update(dst as int, with_source(blocks[dst as int], e)),
        real_edge_count: if flag_on_tree(flags) { f.real_edge_count } else { (f.real_edge_count + 1) as usize },
        ..f
    }
}

/// Reading `count - k` more arcs out of block `src`.
pub open spec fn read_arcs(buf: Seq<u8>, p: int, l: bool, stem: Seq<char>, src: usize, k: nat, count: nat, f: FunView) -> Read<FunView>
    decreases count - k,
{
    if k >= count {
        Read::Done(f, p)
    } else {
        match read_word(buf, p, l, stem) {
            Read::Done(dst, p1) => match read_word(buf, p1, l, stem) {
                Read::Done(flags, p2) => {
                    if dst as int >= f.blocks.len() || f.edges.len() >= usize::MAX
                        || (!flag_on_tree(flags) && f.real_edge_count >= usize::MAX) {
                        Read::Panic
                    } else {
                        read_arcs(buf, p2, l, stem, src, k + 1, count, with_arc(f, src, dst as usize, flags))
                    }
                },
                Read::Fail(m, q) => Read::Fail(m, q),
                Read::Panic => Read::Panic,
            },
            Read::Fail(m, q) => Read::Fail(m, q),
            Read::Panic => Read::Panic,
        }
    }
}

/// The message for an arcs record of a block that does not exist.
pub open spec fn msg_arc_block(no: u32, name: Seq<char>, stem: Seq<char>) -> Seq<char> {
    "Unexpected block number: "@ + decimal(no as nat) + " (in "@ + name + ") in "@ + stem
}

/// The message for a lines record of a block that does not exist.
pub open spec fn msg_line_block(no: u32, name: Seq<char>) -> Seq<char> {
    "Unexpected block number: "@ + decimal(no as nat) + " (in "@ + name + ")."@
}

/// Reading an arcs record of length `length` at `p`: the source block, then
/// pairs of end block and flags.
pub open spec fn read_arcs_at(buf: Seq<u8>, p: int, l: bool, stem: Seq<char>, length: u32, f: FunView) -> Read<FunView> {
    if length == 0 {
        Read::Panic
    } else {
        bind(read_word(buf, p, l, stem), |no: u32, q: int|
            if no as int <= f.blocks.len() {
                if no as int == f.blocks.len() {
                    Read::Panic
                } else {
                    read_arcs(buf, q, l, stem, no as usize, 0, ((length - 1) / 2) as nat, f)
                }
            } else {
                Read::Fail(msg_arc_block(no, f.name, stem), q)
            })
    }
}

/// A function with a line added to block `b`.
pub open spec fn with_line(f: FunView, b: int, line: u32) -> FunView {
    let blk = f.blocks[b];
    FunView {
        blocks: f.blocks.update(b, BlockView {
            lines: blk.lines.push(line),
            line_max: if line > blk.line_max { line } else { blk.line_max },
            ..blk
        }),
        ..f
    }
}

/// Reading the lines of block `b` from `p` on: line numbers, and file names
/// that say whether the lines after them belong to the function's own file,
/// up to an empty name.
pub open spec fn read_block_lines(buf: Seq<u8>, p: int, l: bool, stem: Seq<char>, version: u32, b: int, take: bool, f: FunView) -> Read<FunView>
    decreases buf.len() - p,
{
    match read_word(buf, p, l, stem) {
        Read::Done(line, q) => {
            if line != 0 {
                let f2 = if !take || (version >= 80 && (line < f.start_line || line > f.end_line)) { f } else { with_line(f, b, line) };
                if q <= buf.len() && p < q {
                    read_block_lines(buf, q, l, stem, version, b, take, f2)
                } else {
                    Read::Panic
                }
            } else {
                match read_string_at(buf, q, l, stem) {
                    Read::Done(name, q2) => {
                        if name.len() == 0 {
                            Read::Done(f, q2)
                        } else if q2 <= buf.len() && p < q2 {
                            read_block_lines(buf, q2, l, stem, version, b, name == f.file_name, f)
                        } else {
                            Read::Panic
                        }
                    },
                    Read::Fail(m, q2) => Read::Fail(m, q2),
                    Read::Panic => Read::Panic,
                }
            }
        },
        Read::Fail(m, q) => Read::Fail(m, q),
        Read::Panic => Read::Panic,
    }
}

/// Reading a lines record at `p`: the block, then its lines.
pub open spec fn read_lines_at(buf: Seq<u8>, p: int, l: bool, stem: Seq<char>, version: u32, f: FunView) -> Read<FunView> {
    bind(read_word(buf, p, l, stem), |no: u32, q: int|
        if no as int <= f.blocks.len() {
            if no as int == f.blocks.len() {
                Read::Panic
            } else {
                read_block_lines(buf, q, l, stem, version, no as int, true, f)
            }
        } else {
            Read::Fail(msg_line_block(no, f.name), q)
        })
}

/// A unit with its last function replaced.
pub open spec fn with_last(g: GcnoView, f: FunView) -> GcnoView {
    GcnoView { functions: g.functions.update(g.functions.len() - 1, f), ..g }
}

/// A unit with a function appended and its identifier mapped to it.
pub open spec fn with_function(g: GcnoView, f: FunView) -> GcnoView {
    GcnoView {
        functions: g.functions.push(f),
        ident: g.ident.insert(f.identifier, g.functions.len() as usize),
        ..g
    }
}

/// Reading the body of a gcno record with tag `tag` at `p` (its length first).
pub open spec fn gcno_record(buf: Seq<u8>, p: int, l: bool, stem: Seq<char>, tag: u32, g: GcnoView) -> Read<GcnoView> {
    bind(read_word(buf, p, l, stem), |length: u32, q: int|
        if tag == GCOV_TAG_FUNCTION {
            bind(read_fn_header(buf, q, l, stem, g.version), |f: FunView, r: int|
                if g.functions.len() >= usize::MAX { Read::Panic } else { Read::Done(with_function(g, f), r) })
        } else if tag == GCOV_TAG_BLOCKS || tag == GCOV_TAG_ARCS || tag == GCOV_TAG_LINES {
            if g.functions.len() == 0 {
                Read::Done(g, q)
            } else {
                let f = g.functions.last();
                bind(
                    if tag == GCOV_TAG_BLOCKS {
                        read_blocks_at(buf, q, l, stem, length, g.version, f)
                    } else if tag == GCOV_TAG_ARCS {
                        read_arcs_at(buf, q, l, stem, length, f)
                    } else {
                        read_lines_at(buf, q, l, stem, g.version, f)
                    },
                    |f2: FunView, r: int| Read::Done(with_last(g, f2), r))
            }
        } else {
            Read::Done(g, q)
        })
}

/// How reading a file ends.
pub enum Outcome {
    Done(GcnoView),
    Failed(Seq<char>),
    Panics,
}

/// Reading gcno records from `p` on, until a tag cannot be read or is zero.
pub open spec fn gcno_records(buf: Seq<u8>, p: int, l: bool, stem: Seq<char>, g: GcnoView) -> Outcome
    decreases buf.len() - p,
{
    match read_word(buf, p, l, stem) {
        Read::Done(tag, q) => {
            if tag == 0 {
                Outcome::Done(g)
            } else {
                match gcno_record(buf, q, l, stem, tag, g) {
                    Read::Done(g2, r) => {
                        if p < r <= buf.len() {
                            gcno_records(buf, r, l, stem, g2)
                        } else {
                            Outcome::Panics
                        }
                    },
                    Read::Fail(m, _) => Outcome::Failed(m),
                    Read::Panic => Outcome::Panics,
                }
            }
        },
        Read::Fail(_, _) => Outcome::Done(g),
        Read::Panic => Outcome::Panics,
    }
}

/// Reading a gcno file from `p` on, into `g`: version, checksum, working
/// directory (from version 9), a word for unexecuted blocks (from version 8),
/// then the records.
pub open spec fn gcno_read(buf: Seq<u8>, p: int, l: bool, stem: Seq<char>, g: GcnoView) -> Outcome {
    match read_version_at(buf, p, l, stem) {
        Read::Done(version, p1) => match read_word(buf, p1, l, stem) {
            Read::Done(checksum, p2) => {
                let g1 = GcnoView { version, checksum, ..g };
                match (if version >= 90 { read_string_at(buf, p2, l, stem) } else { Read::Done(Seq::empty(), p2) }) {
                    Read::Done(cwd, p3) => {
                        let g2 = if version >= 90 { GcnoView { cwd: Some(cwd), ..g1 } } else { g1 };
                        match (if version >= 80 { skip_at(buf, p3, 4, stem) } else { Read::Done((), p3) }) {
                            Read::Done(_, p4) => gcno_records(buf, p4, l, stem, g2),
                            Read::Fail(m, _) => Outcome::Failed(m),
                            Read::Panic => Outcome::Panics,
                        }
                    },
                    Read::Fail(m, _) => Outcome::Failed(m),
                    Read::Panic => Outcome::Panics,
                }
            },
            Read::Fail(m, _) => Outcome::Failed(m),
            Read::Panic => Outcome::Panics,
        },
        Read::Fail(m, _) => Outcome::Failed(m),
        Read::Panic => Outcome::Panics,
    }
}

/// Whether a step that may stop short (`None`) agrees with a spec read:
/// `None` exactly where the spec read cannot go on.
pub open spec fn opt_step_agrees<T>(r: Option<Result<(), GcovReaderError>>, now: T, at: int, s: Read<T>) -> bool {
    match s {
        Read::Panic => r is None,
        _ => r is Some && step_agrees(r->0, now, at, s),
    }
}

/// Whether a step that changes a state agrees with a spec read that gives
/// the new state.
pub open spec fn step_agrees<T>(r: Result<(), GcovReaderError>, now: T, at: int, s: Read<T>) -> bool {
    match s {
        Read::Done(x, q) => r is Ok && now == x && at == q,
        Read::Fail(m, q) => r is Err && r->Err_0@ == ReadErrorView::Str(m) && at == q,
        Read::Panic => false,
    }
}

/// The new state after a function's blocks grow by one.
pub proof fn lemma_push_block(v: Seq<GcovBlock>, b: GcovBlock)
    ensures
        v.push(b).map_values(|x: GcovBlock| x@) == v.map_values(|x: GcovBlock| x@).push(b@),
{
    assert(v.push(b).map_values(|x: GcovBlock| x@) =~= v.map_values(|x: GcovBlock| x@).push(b@));
}

/// The new state after the block at `i` changes.
pub proof fn lemma_update_block(v: Seq<GcovBlock>, i: int, b: GcovBlock)
    requires
        0 <= i < v.len(),
    ensures
        v.update(i, b).map_values(|x: GcovBlock| x@) == v.map_values(|x: GcovBlock| x@).update(i, b@),
{
    assert(v.update(i, b).map_values(|x: GcovBlock| x@) =~= v.map_values(|x: GcovBlock| x@).update(i, b@));
}

impl Gcno {
    /// Reads a function header.
    fn read_fn_header<E: Endian, T: GcovReader<E>>(reader: &mut T, version: u32) -> (r: Option<Result<GcovFunction, GcovReaderError>>)
        requires
            sane(old(reader).data(), old(reader).at()),
        ensures
            final(reader).data() == old(reader).data(),
            final(reader).stem_chars() == old(reader).stem_chars(),
            r is Some && r->0 is Ok ==> sane(final(reader).data(), final(reader).at()),
            opt_read_agrees(r, |f: GcovFunction| f@, final(reader).at(),
                read_fn_header(old(reader).data(), old(reader).at(), E::little(), old(reader).stem_chars(), version)),
    {
        let identifier = match reader.read_u32() { Ok(x) => x, Err(e) => return Some(Err(e)) };
        let line_checksum = match reader.read_u32() { Ok(x) => x, Err(e) => return Some(Err(e)) };
        let cfg_checksum = if version >= 47 {
            match reader.read_u32() { Ok(x) => x, Err(e) => return Some(Err(e)) }
        } else {
            0
        };
        if reader.string_panics() { return None; }
        let name = match reader.read_string() { Ok(x) => x, Err(e) => return Some(Err(e)) };
        let (artificial, file_name, start_line, start_column, end_line, end_column) = if version < 80 {
            if reader.string_panics() { return None; }
            let file_name = match reader.read_string() { Ok(x) => x, Err(e) => return Some(Err(e)) };
            let start_line = match reader.read_u32() { Ok(x) => x, Err(e) => return Some(Err(e)) };
            (0, file_name, start_line, 0, 0, 0)
        } else {
            let artificial = match reader.read_u32() { Ok(x) => x, Err(e) => return Some(Err(e)) };
            if reader.string_panics() { return None; }
            let file_name = match reader.read_string() { Ok(x) => x, Err(e) => return Some(Err(e)) };
            let start_line = match reader.read_u32() { Ok(x) => x, Err(e) => return Some(Err(e)) };
            let start_column = match reader.read_u32() { Ok(x) => x, Err(e) => return Some(Err(e)) };
            let end_line = match reader.read_u32() { Ok(x) => x, Err(e) => return Some(Err(e)) };
            let end_column = if version >= 90 {
                match reader.read_u32() { Ok(x) => x, Err(e) => return Some(Err(e)) }
            } else {
                0
            };
            (artificial, file_name, start_line, start_column, end_line, end_column)
        };
        let f = GcovFunction {
            identifier,
            start_line,
            start_column,
            end_line,
            end_column,
            artificial,
            line_checksum,
            cfg_checksum,
            file_name,
            name,
            blocks: crate::graph::block_list_new(),
            edges: crate::graph::edge_list_new(),
            real_edge_count: 0,
            lines: crate::graph::line_counts_new(),
            executed: false,
        };
        assert(blocks_view(f.blocks) =~= Seq::<BlockView>::empty());
        Some(Ok(f))
    }

    /// Reads the blocks of a function.
    fn read_blocks<E: Endian, T: GcovReader<E>>(fun: &mut GcovFunction, length: u32, version: u32, reader: &mut T) -> (r: Option<Result<(), GcovReaderError>>)
        requires
            sane(old(reader).data(), old(reader).at()),
            graph_wf(old(fun)@),
        ensures
            r is Some && r->0 is Ok ==> graph_wf(final(fun)@),
            final(reader).data() == old(reader).data(),
            final(reader).stem_chars() == old(reader).stem_chars(),
            r is Some && r->0 is Ok ==> sane(final(reader).data(), final(reader).at()),
            opt_step_agrees(r, final(fun)@, final(reader).at(),
                read_blocks_at(old(reader).data(), old(reader).at(), E::little(), old(reader).stem_chars(), length, version, old(fun)@)),
    {
        let ghost buf = reader.data();
        let ghost stem = reader.stem_chars();
        if version < 80 {
            let ghost target = skip_blocks(buf, reader.at(), stem, 0, length as nat, fun@);
            let ghost fs = fun@;
            let mut no: u32 = 0;
            while no < length
                invariant
                    no <= length,
                    reader.data() == buf,
                    reader.stem_chars() == stem,
                    buf == old(reader).data(),
                    stem == old(reader).stem_chars(),
                    version < 80,
                    target == read_blocks_at(buf, old(reader).at(), E::little(), stem, length, version, old(fun)@),
                    skip_blocks(buf, reader.at(), stem, no as nat, length as nat, fun@) == target,
                    graph_wf(fun@),
                    fun@.blocks.len() == fs.blocks.len() + no,
                    sane(buf, reader.at()),
                decreases length - no,
            {
                match reader.skip_u32() {
                    Ok(_) => {},
                    Err(e) => return Some(Err(e)),
                }
                let ghost before = fun@;
                let b = GcovBlock::new(no as usize);
                proof { lemma_push_block(block_list(fun.blocks), b); }
                block_list_push(&mut fun.blocks, b);
                assert(fun@ == FunView { blocks: before.blocks.push(new_block(no as usize)), ..before });
                assert(graph_wf(fun@)) by {
                    assert forall|b: int| 0 <= b < before.blocks.len() implies #[trigger] fun@.blocks[b] == before.blocks[b] by {}
                }
                no += 1;
            }
            Some(Ok(()))
        } else {
            let n = match reader.read_u32() { Ok(x) => x, Err(e) => return Some(Err(e)) };
            let ghost f0 = fun@;
            let mut no: u32 = 0;
            while no < n
                invariant
                    no <= n,
                    sane(reader.data(), reader.at()),
                    fun@ == with_new_blocks(f0, no as nat),
                    graph_wf(f0),
                    graph_wf(fun@),
                decreases n - no,
            {
                let b = GcovBlock::new(no as usize);
                let ghost pre = fun@;
                proof { lemma_push_block(block_list(fun.blocks), b); }
                block_list_push(&mut fun.blocks, b);
                assert(with_new_blocks(f0, no as nat).blocks.push(new_block(no as usize))
                    =~= with_new_blocks(f0, (no + 1) as nat).blocks);
                assert(fun@.blocks == pre.blocks.push(new_block(no as usize)));
                assert(fun@.edges == pre.edges);
                assert(graph_wf(fun@)) by {
                    let post = fun@;
                    assert forall|b: int, j: int| 0 <= b < post.blocks.len() && 0 <= j < post.blocks[b].source.len()
                        implies #[trigger] post.blocks[b].source[j] < post.edges.len() by {
                        assert(b < pre.blocks.len());
                        assert(post.blocks[b] == pre.blocks[b]);
                    }
                    assert forall|b: int, j: int| 0 <= b < post.blocks.len() && 0 <= j < post.blocks[b].destination.len()
                        implies #[trigger] post.blocks[b].destination[j] < post.edges.len() by {
                        assert(b < pre.blocks.len());
                        assert(post.blocks[b] == pre.blocks[b]);
                    }
                    assert forall|b: int| 0 <= b < post.blocks.len() implies #[trigger] post.blocks[b].no < post.blocks.len() by {
                        if b < pre.blocks.len() {
                            assert(post.blocks[b] == pre.blocks[b]);
                        }
                    }
                }
                no += 1;
            }
            Some(Ok(()))
        }
    }

    /// Where a new arc to block `d` goes among the arcs out of block `b`.
    pub(crate) fn insert_position(blocks: &crate::graph::BlockList, edges: &crate::graph::EdgeList, b: usize, d: usize) -> (r: usize)
        requires
            b < block_list(*blocks).len(),
            forall|j: int| 0 <= j < block_list(*blocks)[b as int]@.destination.len()
                ==> #[trigger] block_list(*blocks)[b as int]@.destination[j] < edge_list(*edges).len(),
        ensures
            r == insert_pos(block_list(*blocks)[b as int]@.destination, edge_list(*edges), d),
            r <= block_list(*blocks)[b as int]@.destination.len(),
    {
        let bs = block_list_slice(blocks);
        let es = edge_list_slice(edges);
        let dest = index_list_slice(&bs[b].destination);
        let ghost all = dest@;
        assert(all == block_list(*blocks)[b as int]@.destination);
        assert(all.subrange(0, all.len() as int) =~= all);
        assert forall|k: int| 0 <= k < all.len() implies #[trigger] all[k] < es@.len() by {
            assert(block_list(*blocks)[b as int]@.destination[k] < edge_list(*edges).len());
        }
        let mut j: usize = 0;
        while j < dest.len() && es[dest[j]].destination <= d
            invariant
                j <= dest@.len(),
                dest@ == all,
                es@ == edge_list(*edges),
                all == block_list(*blocks)[b as int]@.destination,
                forall|k: int| 0 <= k < all.len() ==> #[trigger] all[k] < es@.len(),
                insert_pos(all, es@, d) == j + insert_pos(all.subrange(j as int, all.len() as int), es@, d),
            decreases dest@.len() - j,
        {
            let ghost rest = all.subrange(j as int, all.len() as int);
            assert(rest.drop_first() =~= all.subrange(j + 1, all.len() as int));
            j += 1;
        }
        proof {
            let rest = all.subrange(j as int, all.len() as int);
            if j < all.len() {
                assert(rest[0] == all[j as int]);
            } else {
                assert(rest.len() == 0);
            }
        }
        j
    }

    /// Reads the arcs out of a block: pairs of end block and flags.
    #[verifier::spinoff_prover]
    fn read_edges<E: Endian, T: GcovReader<E>>(fun: &mut GcovFunction, count: u32, reader: &mut T) -> (r: Option<Result<(), GcovReaderError>>)
        requires
            sane(old(reader).data(), old(reader).at()),
            graph_wf(old(fun)@),
        ensures
            final(reader).data() == old(reader).data(),
            final(reader).stem_chars() == old(reader).stem_chars(),
            r is Some && r->0 is Ok ==> sane(final(reader).data(), final(reader).at()),
            opt_step_agrees(r, final(fun)@, final(reader).at(),
                read_arcs_at(old(reader).data(), old(reader).at(), E::little(), old(reader).stem_chars(), count, old(fun)@)),
            r is Some && r->0 is Ok ==> graph_wf(final(fun)@),
    {
        let ghost buf = reader.data();
        let ghost stem = reader.stem_chars();
        let ghost target = read_arcs_at(buf, reader.at(), E::little(), stem, count, fun@);
        if count == 0 {
            return None;
        }
        let n = ((count - 1) / 2) as usize;
        let block_no = match reader.read_u32() { Ok(x) => x, Err(e) => return Some(Err(e)) } as usize;
        let nblocks = block_list_slice(&fun.blocks).len();
        if block_no <= nblocks {
            if block_no == nblocks {
                return None;
            }
            let mut k: usize = 0;
            while k < n
                invariant
                    k <= n,
                    n == (count - 1) / 2,
                    reader.data() == buf,
                    reader.stem_chars() == stem,
                    buf == old(reader).data(),
                    stem == old(reader).stem_chars(),
                    target == read_arcs_at(buf, old(reader).at(), E::little(), stem, count, old(fun)@),
                    block_no < fun@.blocks.len(),
                    graph_wf(fun@),
                    read_arcs(buf, reader.at(), E::little(), stem, block_no, k as nat, n as nat, fun@) == target,
                    sane(buf, reader.at()),
                decreases n - k,
            {
                let dst = match reader.read_u32() { Ok(x) => x, Err(e) => return Some(Err(e)) } as usize;
                let flags = match reader.read_u32() { Ok(x) => x, Err(e) => return Some(Err(e)) };
                let ghost f0 = fun@;
                if dst >= block_list_slice(&fun.blocks).len() {
                    return None;
                }
                let edges_count = edge_list_slice(&fun.edges).len();
                if edges_count == usize::MAX {
                    return None;
                }
                assert(flags & 1 == 0 <==> flags % 2 == 0) by (bit_vector);
                if flags & 1 == 0 && fun.real_edge_count == usize::MAX {
                    return None;
                }
                edge_list_push(&mut fun.edges, GcovEdge { source: block_no, destination: dst, flags, counter: 0, cycles: 0 });
                let ghost edges1 = edge_list(fun.edges);
                assert(forall|j: int| 0 <= j < f0.blocks[block_no as int].destination.len()
                    ==> #[trigger] f0.blocks[block_no as int].destination[j] < edges1.len());
                let i = Self::insert_position(&fun.blocks, &fun.edges, block_no, dst);
                let ghost bl0 = block_list(fun.blocks);
                {
                    let b = block_list_at(&mut fun.blocks, block_no);
                    index_list_insert(&mut b.destination, i, edges_count);
                }
                proof {
                    lemma_update_block(bl0, block_no as int, block_list(fun.blocks)[block_no as int]);
                }
                let ghost bl1 = block_list(fun.blocks);
                {
                    let b = block_list_at(&mut fun.blocks, dst);
                    index_list_push(&mut b.source, edges_count);
                }
                proof {
                    lemma_update_block(bl1, dst as int, block_list(fun.blocks)[dst as int]);
                }
                assert(flags & 1 == 0 <==> flags % 2 == 0) by (bit_vector);
                if flags & 1 == 0 {
                    fun.real_edge_count += 1;
                }
                let ghost f1 = with_arc(f0, block_no, dst, flags);
                assert(fun@.blocks =~= f1.blocks);
                assert(fun@ == f1);
                assert(graph_wf(fun@)) by {
                    assert forall|b: int, j: int| 0 <= b < f1.blocks.len() && 0 <= j < f1.blocks[b].source.len()
                        implies #[trigger] f1.blocks[b].source[j] < f1.edges.len() by {
                        if b == dst as int && j == f1.blocks[b].source.len() - 1 {
                        } else if b == dst as int {
                            if b == block_no as int {
                                assert(f1.blocks[b].source[j] == f0.blocks[b].source[j]);
                            } else {
                                assert(f1.blocks[b].source[j] == f0.blocks[b].source[j]);
                            }
                        } else if b == block_no as int {
                            assert(f1.blocks[b].source[j] == f0.blocks[b].source[j]);
                        } else {
                            assert(f1.blocks[b] == f0.blocks[b]);
                        }
                    }
                    assert forall|b: int, j: int| 0 <= b < f1.blocks.len() && 0 <= j < f1.blocks[b].destination.len()
                        implies #[trigger] f1.blocks[b].destination[j] < f1.edges.len() by {
                        let p = insert_pos(f0.blocks[block_no as int].destination, edges1, dst);
                        if b == block_no as int {
                            let d0 = f0.blocks[b].destination;
                            let d1 = d0.insert(p, edges_count);
                            assert(f1.blocks[b].destination == d1);
                            if j < p {
                                assert(d1[j] == d0[j]);
                            } else if j > p {
                                assert(d1[j] == d0[j - 1]);
                            }
                        } else {
                            assert(f1.blocks[b].destination == f0.blocks[b].destination);
                        }
                    }
                    assert forall|e: int| 0 <= e < f1.edges.len() implies #[trigger] f1.edges[e].source < f1.blocks.len()
                        && f1.edges[e].destination < f1.blocks.len() by {
                        if e < f0.edges.len() {
                            assert(f1.edges[e] == f0.edges[e]);
                        }
                    }
                }
                k += 1;
            }
            Some(Ok(()))
        } else {
            let mut m = "Unexpected block number: ".to_owned();
            push_decimal(&mut m, block_no as u64);
            m.append(" (in ");
            m.append(fun.name.as_str());
            m.append(") in ");
            m.append(reader.get_stem());
            Some(Err(GcovReaderError::Str(m)))
        }
    }

    /// Reads the lines of a block.
    fn read_lines<E: Endian, T: GcovReader<E>>(fun: &mut GcovFunction, version: u32, reader: &mut T) -> (r: Option<Result<(), GcovReaderError>>)
        requires
            sane(old(reader).data(), old(reader).at()),
            graph_wf(old(fun)@),
        ensures
            final(reader).data() == old(reader).data(),
            final(reader).stem_chars() == old(reader).stem_chars(),
            r is Some && r->0 is Ok ==> sane(final(reader).data(), final(reader).at()),
            opt_step_agrees(r, final(fun)@, final(reader).at(),
                read_lines_at(old(reader).data(), old(reader).at(), E::little(), old(reader).stem_chars(), version, old(fun)@)),
            r is Some && r->0 is Ok ==> graph_wf(final(fun)@),
    {
        let ghost buf = reader.data();
        let ghost stem = reader.stem_chars();
        let ghost target = read_lines_at(buf, reader.at(), E::little(), stem, version, fun@);
        let block_no = match reader.read_u32() { Ok(x) => x, Err(e) => return Some(Err(e)) } as usize;
        let mut must_take = true;
        let nblocks = block_list_slice(&fun.blocks).len();
        if block_no <= nblocks {
            if block_no == nblocks {
                return None;
            }
            loop
                invariant_except_break
                    reader.at() <= buf.len(),
                    read_block_lines(buf, reader.at(), E::little(), stem, version, block_no as int, must_take, fun@) == target,
                invariant
                    reader.data() == buf,
                    reader.stem_chars() == stem,
                    buf == old(reader).data(),
                    stem == old(reader).stem_chars(),
                    target == read_lines_at(buf, old(reader).at(), E::little(), stem, version, old(fun)@),
                    block_no < fun@.blocks.len(),
                    graph_wf(fun@),
                    fun@.file_name == old(fun)@.file_name,
                    fun@.start_line == old(fun)@.start_line,
                    fun@.end_line == old(fun)@.end_line,
                    buf.len() + 8 <= usize::MAX,
                    0 <= reader.at(),
                ensures
                    reader.data() == buf,
                    reader.stem_chars() == stem,
                    step_agrees(Ok(()), fun@, reader.at(), target),
                    graph_wf(fun@),
                    sane(buf, reader.at()),
                decreases buf.len() - reader.at(),
            {
                let ghost p = reader.at();
                let ghost f0 = fun@;
                let line = match reader.read_u32() { Ok(x) => x, Err(e) => return Some(Err(e)) };
                if line != 0 {
                    if !must_take || (version >= 80 && (line < fun.start_line || line > fun.end_line)) {
                        continue;
                    }
                    let ghost bl0 = block_list(fun.blocks);
                    {
                        let b = block_list_at(&mut fun.blocks, block_no);
                        line_list_push(&mut b.lines, line);
                        if line > b.line_max {
                            b.line_max = line;
                        }
                    }
                    proof {
                        lemma_update_block(bl0, block_no as int, block_list(fun.blocks)[block_no as int]);
                    }
                    assert(fun@.blocks =~= with_line(f0, block_no as int, line).blocks);
                    assert(fun@ == with_line(f0, block_no as int, line));
                    assert(graph_wf(fun@)) by {
                        assert forall|b: int| 0 <= b < fun@.blocks.len() implies
                            #[trigger] fun@.blocks[b].source == f0.blocks[b].source
                            && fun@.blocks[b].destination == f0.blocks[b].destination by {
                        }
                    }
                } else {
                    if reader.string_panics() { return None; }
                    let filename = match reader.read_string() { Ok(x) => x, Err(e) => return Some(Err(e)) };
                    if filename.as_str().is_empty() {
                        break;
                    }
                    must_take = filename == fun.file_name;
                }
            }
            Some(Ok(()))
        } else {
            let mut m = "Unexpected block number: ".to_owned();
            push_decimal(&mut m, block_no as u64);
            m.append(" (in ");
            m.append(fun.name.as_str());
            m.append(").");
            Some(Err(GcovReaderError::Str(m)))
        }
    }

    /// Reads gcno records until a tag cannot be read or is zero.
    #[verifier::rlimit(50)]
    fn read_functions<E: Endian, T: GcovReader<E>>(&mut self, reader: &mut T) -> (r: Option<Result<(), GcovReaderError>>)
        requires
            sane(old(reader).data(), old(reader).at()),
            gcno_wf(old(self)@),
        ensures
            final(reader).data() == old(reader).data(),
            final(reader).stem_chars() == old(reader).stem_chars(),
            opt_outcome_agrees(r, final(self)@,
                gcno_records(old(reader).data(), old(reader).at(), E::little(), old(reader).stem_chars(), old(self)@)),
            r is Some && r->0 is Ok ==> gcno_wf(final(self)@),
    {
        let ghost buf = reader.data();
        let ghost stem = reader.stem_chars();
        let ghost l = E::little();
        let ghost target = gcno_records(buf, reader.at(), l, stem, self@);
        loop
            invariant_except_break
                reader.at() <= buf.len(),
                gcno_records(buf, reader.at(), l, stem, self@) == target,
            invariant
                l == E::little(),
                reader.data() == buf,
                reader.stem_chars() == stem,
                buf == old(reader).data(),
                stem == old(reader).stem_chars(),
                target == gcno_records(buf, old(reader).at(), l, stem, old(self)@),
                gcno_wf(self@),
                buf.len() + 8 <= usize::MAX,
                0 <= reader.at(),
            ensures
                reader.data() == buf,
                reader.stem_chars() == stem,
                outcome_agrees(Ok(()), self@, target),
                gcno_wf(self@),
            decreases buf.len() - reader.at(),
        {
            let ghost p = reader.at();
            let ghost g0 = self@;
            let start = reader.get_pos();
            let tag = match reader.read_u32() {
                Ok(t) => t,
                Err(_) => break,
            };
            if tag == 0 {
                break;
            }
            match self.read_gcno_record(tag, reader) {
                Some(Ok(())) => {},
                Some(Err(e)) => return Some(Err(e)),
                None => return None,
            }
            if reader.get_pos() <= start {
                return None;
            }
        }
        Some(Ok(()))
    }

    /// Reads a gcno file: its header, then its records.
    pub fn read_gcno<E: Endian, T: GcovReader<E>>(&mut self, reader: T) -> (r: Option<Result<(), GcovReaderError>>)
        requires
            sane(reader.data(), reader.at()),
            gcno_wf(old(self)@),
        ensures
            opt_outcome_agrees(r, final(self)@, gcno_read(reader.data(), reader.at(), E::little(), reader.stem_chars(), old(self)@)),
            r is Some && r->0 is Ok ==> gcno_wf(final(self)@),
    {
        let mut reader = reader;
        if reader.version_panics() { return None; }
        self.version = match reader.read_version() { Ok(x) => x, Err(e) => return Some(Err(e)) };
        self.checksum = match reader.read_u32() { Ok(x) => x, Err(e) => return Some(Err(e)) };
        if self.version >= 90 {
            if reader.string_panics() { return None; }
            let cwd = match reader.read_string() { Ok(x) => x, Err(e) => return Some(Err(e)) };
            self.cwd = Some(cwd);
        }
        if self.version >= 80 {
            match reader.skip_u32() { Ok(_) => {}, Err(e) => return Some(Err(e)) }
        }
        self.read_functions(&mut reader)
    }
}

/// Whether the result of reading a file that may stop short (`None`)
/// agrees with how the spec says the reading ends.
pub open spec fn opt_outcome_agrees(r: Option<Result<(), GcovReaderError>>, now: GcnoView, o: Outcome) -> bool {
    match o {
        Outcome::Panics => r is None,
        _ => r is Some && outcome_agrees(r->0, now, o),
    }
}

/// Whether the result of reading a file, and the state after it, agree with
/// how the spec says the reading ends.
pub open spec fn outcome_agrees(r: Result<(), GcovReaderError>, now: GcnoView, o: Outcome) -> bool {
    match o {
        Outcome::Done(g) => r is Ok && now == g,
        Outcome::Failed(m) => r is Err && r->Err_0@ == ReadErrorView::Str(m),
        Outcome::Panics => false,
    }
}

pub open spec fn msg_versions(stem: Seq<char>) -> Seq<char> {
    "GCOV versions do not match in "@ + stem
}

pub open spec fn msg_checksums(mine: u32, theirs: u32, stem: Seq<char>) -> Seq<char> {
    "File checksums do not match: "@ + decimal(mine as nat) + " != "@ + decimal(theirs as nat) + " in "@ + stem
}

pub open spec fn msg_header_length(stem: Seq<char>) -> Seq<char> {
    "Invalid header length in "@ + stem
}

pub open spec fn msg_fn_checksums(line_sum: u32, line_mine: u32, cfg_sum: u32, cfg_mine: u32, stem: Seq<char>) -> Seq<char> {
    "Checksum mismatch ("@ + decimal(line_sum as nat) + ", "@ + decimal(line_mine as nat) + ") != ("@
        + decimal(cfg_sum as nat) + ", "@ + decimal(cfg_mine as nat) + ") in "@ + stem
}

pub open spec fn msg_identifier(id: u32, stem: Seq<char>) -> Seq<char> {
    "Invalid function identifier "@ + decimal(id as nat) + " in "@ + stem
}

pub open spec fn msg_edge_count(name: Seq<char>, stem: Seq<char>) -> Seq<char> {
    "Unexpected number of edges (in "@ + name + ") in "@ + stem
}

/// A function with `c` added to the count of arc `k` and to that of its
/// source block.
pub open spec fn with_arc_count(f: FunView, k: int, c: u64) -> FunView {
    let e = f.edges[k];
    let b = f.blocks[e.source as int];
    FunView {
        edges: f.edges.update(k, GcovEdge { counter: (e.counter + c) as u64, ..e }),
        blocks: f.blocks.update(e.source as int, BlockView { counter: (b.counter + c) as u64, ..b }),
        ..f
    }
}

/// Reading the counts of the arcs from `k` on that are not on the spanning
/// tree, one counter each, in arc order.
pub open spec fn read_arc_counts(buf: Seq<u8>, p: int, l: bool, stem: Seq<char>, k: nat, f: FunView) -> Read<FunView>
    decreases f.edges.len() - k,
{
    if k >= f.edges.len() {
        Read::Done(f, p)
    } else if flag_on_tree(f.edges[k as int].flags) {
        read_arc_counts(buf, p, l, stem, k + 1, f)
    } else {
        match read_counter_at(buf, p, l, stem) {
            Read::Done(c, q) => {
                let e = f.edges[k as int];
                if e.source >= f.blocks.len() || e.counter + c > u64::MAX
                    || f.blocks[e.source as int].counter + c > u64::MAX {
                    Read::Panic
                } else {
                    read_arc_counts(buf, q, l, stem, k + 1, with_arc_count(f, k as int, c))
                }
            },
            Read::Fail(m, q) => Read::Fail(m, q),
            Read::Panic => Read::Panic,
        }
    }
}

/// What the body of a gcda record leaves: the unit, the current function,
/// and whether the reader then moves to the end of the record.
pub struct GcdaState {
    pub g: GcnoView,
    pub current: Option<usize>,
    pub aligns: bool,
}

/// Reading the body of a gcda record with tag `tag` and length `length` at `p`.
pub open spec fn gcda_body(buf: Seq<u8>, p: int, l: bool, stem: Seq<char>, tag: u32, length: u32, g: GcnoView, current: Option<usize>) -> Read<GcdaState> {
    if tag == GCOV_TAG_FUNCTION {
        if length == 0 {
            Read::Done(GcdaState { g, current, aligns: false }, p)
        } else if length == 1 {
            Read::Fail(msg_header_length(stem), p)
        } else {
            bind(read_word(buf, p, l, stem), |id: u32, p1: int|
            bind(read_word(buf, p1, l, stem), |line_sum: u32, p2: int|
            bind(if g.version >= 47 { read_word(buf, p2, l, stem) } else { Read::Done(0u32, p2) }, |cfg_sum: u32, p3: int|
                if g.ident.contains_key(id) {
                    let f = g.functions[g.ident[id] as int];
                    if line_sum != f.line_checksum || cfg_sum != f.cfg_checksum {
                        Read::Fail(msg_fn_checksums(line_sum, f.line_checksum, cfg_sum, f.cfg_checksum, stem), p3)
                    } else {
                        Read::Done(GcdaState { g, current: Some(g.ident[id]), aligns: true }, p3)
                    }
                } else {
                    Read::Fail(msg_identifier(id, stem), p3)
                })))
        }
    } else if tag == GCOV_TAG_COUNTER_ARCS {
        match current {
            None => Read::Done(GcdaState { g, current, aligns: false }, p),
            Some(i) => {
                let f = g.functions[i as int];
                if #[verifier::truncate] (f.real_edge_count as u32) != length / 2 {
                    Read::Fail(msg_edge_count(f.name, stem), p)
                } else {
                    bind(read_arc_counts(buf, p, l, stem, 0, f), |f2: FunView, q: int|
                        Read::Done(GcdaState {
                            g: GcnoView { functions: g.functions.update(i as int, f2), ..g },
                            current,
                            aligns: true,
                        }, q))
                }
            },
        }
    } else if tag == GCOV_TAG_OBJECT_SUMMARY {
        bind(read_word(buf, p, l, stem), |runcounts: u32, p1: int|
        bind(skip_at(buf, p1, 4, stem), |u: (), p2: int|
        bind(if length == 9 { read_word(buf, p2, l, stem) } else { Read::Done(runcounts, p2) }, |add: u32, p3: int|
            if g.runcounts + add > u32::MAX {
                Read::Panic
            } else {
                Read::Done(GcdaState { g: GcnoView { runcounts: (g.runcounts + add) as u32, ..g }, current, aligns: true }, p3)
            })))
    } else if tag == GCOV_TAG_PROGRAM_SUMMARY {
        bind(
            if length > 0 {
                bind(skip_at(buf, p, 4, stem), |u: (), p1: int|
                bind(skip_at(buf, p1, 4, stem), |v: (), p2: int|
                bind(read_word(buf, p2, l, stem), |add: u32, p3: int|
                    if g.runcounts + add > u32::MAX {
                        Read::Panic
                    } else {
                        Read::Done(GcnoView { runcounts: (g.runcounts + add) as u32, ..g }, p3)
                    })))
            } else {
                Read::Done(g, p)
            },
            |g2: GcnoView, q: int|
                if g2.programcounts + 1 > u32::MAX {
                    Read::Panic
                } else {
                    Read::Done(GcdaState { g: GcnoView { programcounts: (g2.programcounts + 1) as u32, ..g2 }, current, aligns: true }, q)
                })
    } else {
        Read::Done(GcdaState { g, current, aligns: true }, p)
    }
}

/// Reading gcda records from `p` on, until a tag cannot be read or is zero;
/// after a record the reader moves to its end, which must leave a byte.
pub open spec fn gcda_records(buf: Seq<u8>, p: int, l: bool, stem: Seq<char>, g: GcnoView, current: Option<usize>) -> Outcome
    decreases buf.len() - p,
{
    match read_word(buf, p, l, stem) {
        Read::Done(tag, q) => {
            if tag == 0 {
                Outcome::Done(g)
            } else {
                match read_word(buf, q, l, stem) {
                    Read::Done(length, q2) => match gcda_body(buf, q2, l, stem, tag, length, g, current) {
                        Read::Done(st, r) => {
                            let end = q2 + 4 * length;
                            let next = if st.aligns {
                                if end > usize::MAX || end < r {
                                    Read::Panic
                                } else {
                                    skip_at(buf, r, end - r, stem)
                                }
                            } else {
                                Read::Done((), r)
                            };
                            match next {
                                Read::Done(_, r2) => {
                                    if p < r2 <= buf.len() {
                                        gcda_records(buf, r2, l, stem, st.g, st.current)
                                    } else {
                                        Outcome::Panics
                                    }
                                },
                                Read::Fail(m, _) => Outcome::Failed(m),
                                Read::Panic => Outcome::Panics,
                            }
                        },
                        Read::Fail(m, _) => Outcome::Failed(m),
                        Read::Panic => Outcome::Panics,
                    },
                    Read::Fail(m, _) => Outcome::Failed(m),
                    Read::Panic => Outcome::Panics,
                }
            }
        },
        Read::Fail(_, _) => Outcome::Done(g),
        Read::Panic => Outcome::Panics,
    }
}

/// Reading a gcda file from `p` on, into `g`: its version and checksum must
/// be those of the gcno, then come the records.
pub open spec fn gcda_read(buf: Seq<u8>, p: int, l: bool, stem: Seq<char>, g: GcnoView) -> Outcome {
    match read_version_at(buf, p, l, stem) {
        Read::Done(version, p1) => {
            if version != g.version {
                Outcome::Failed(msg_versions(stem))
            } else {
                match read_word(buf, p1, l, stem) {
                    Read::Done(checksum, p2) => {
                        if checksum != g.checksum {
                            Outcome::Failed(msg_checksums(g.checksum, checksum, stem))
                        } else {
                            gcda_records(buf, p2, l, stem, g, None)
                        }
                    },
                    Read::Fail(m, _) => Outcome::Failed(m),
                    Read::Panic => Outcome::Panics,
                }
            }
        },
        Read::Fail(m, _) => Outcome::Failed(m),
        Read::Panic => Outcome::Panics,
    }
}

/// Whether a gcda file's version and checksum are read and are those of the
/// unit.
pub open spec fn gcda_header_passes(buf: Seq<u8>, p: int, l: bool, stem: Seq<char>, g: GcnoView) -> bool {
    match read_version_at(buf, p, l, stem) {
        Read::Done(version, p1) => version == g.version && match read_word(buf, p1, l, stem) {
            Read::Done(checksum, _) => checksum == g.checksum,
            _ => false,
        },
        _ => false,
    }
}

/// A function with every count of its arcs and blocks set to zero: what a
/// gcda file leaves as it found it.
pub open spec fn fun_shape(f: FunView) -> FunView {
    FunView {
        edges: f.edges.map_values(|e: GcovEdge| GcovEdge { counter: 0, ..e }),
        blocks: f.blocks.map_values(|b: BlockView| BlockView { counter: 0, ..b }),
        ..f
    }
}

/// A unit with every count set to zero.
pub open spec fn shape(g: GcnoView) -> GcnoView {
    GcnoView {
        runcounts: 0,
        programcounts: 0,
        functions: g.functions.map_values(|f: FunView| fun_shape(f)),
        ..g
    }
}

/// Whether four functions differ only in their counts, and each count of
/// `a` plus that of `b` is that of `c` plus that of `d`.
pub open spec fn fun_counts_sum(a: FunView, b: FunView, c: FunView, d: FunView) -> bool {
    &&& fun_shape(a) == fun_shape(b)
    &&& fun_shape(a) == fun_shape(c)
    &&& fun_shape(a) == fun_shape(d)
    &&& forall|k: int| 0 <= k < a.edges.len() ==>
        #[trigger] a.edges[k].counter + b.edges[k].counter == c.edges[k].counter + d.edges[k].counter
    &&& forall|k: int| 0 <= k < a.blocks.len() ==>
        #[trigger] a.blocks[k].counter + b.blocks[k].counter == c.blocks[k].counter + d.blocks[k].counter
}

/// Whether four units differ only in their counts, and each count of `a`
/// (arcs, blocks, runs, programs) plus that of `b` is that of `c` plus that
/// of `d`.
pub open spec fn counts_sum(a: GcnoView, b: GcnoView, c: GcnoView, d: GcnoView) -> bool {
    &&& shape(a) == shape(b)
    &&& shape(a) == shape(c)
    &&& shape(a) == shape(d)
    &&& a.runcounts + b.runcounts == c.runcounts + d.runcounts
    &&& a.programcounts + b.programcounts == c.programcounts + d.programcounts
    &&& forall|i: int| 0 <= i < a.functions.len() ==>
        #[trigger] fun_counts_sum(a.functions[i], b.functions[i], c.functions[i], d.functions[i])
}

proof fn lemma_fun_shape_eq(a: FunView, b: FunView)
    requires
        fun_shape(a) == fun_shape(b),
    ensures
        a.edges.len() == b.edges.len(),
        a.blocks.len() == b.blocks.len(),
        a.real_edge_count == b.real_edge_count,
        a.line_checksum == b.line_checksum,
        a.cfg_checksum == b.cfg_checksum,
        forall|k: int| 0 <= k < a.edges.len() ==> (#[trigger] a.edges[k]).source == b.edges[k].source
            && a.edges[k].flags == b.edges[k].flags,
{
    assert(fun_shape(a).edges.len() == a.edges.len());
    assert(fun_shape(b).edges.len() == b.edges.len());
    assert(fun_shape(a).blocks.len() == a.blocks.len());
    assert(fun_shape(b).blocks.len() == b.blocks.len());
    assert forall|k: int| 0 <= k < a.edges.len() implies (#[trigger] a.edges[k]).source == b.edges[k].source
        && a.edges[k].flags == b.edges[k].flags by {
        let ea = a.edges.map_values(|e: GcovEdge| GcovEdge { counter: 0, ..e });
        let eb = b.edges.map_values(|e: GcovEdge| GcovEdge { counter: 0, ..e });
        assert(fun_shape(a).edges == ea);
        assert(fun_shape(b).edges == eb);
        assert(ea[k] == eb[k]);
        assert(ea[k].source == a.edges[k].source);
        assert(eb[k].source == b.edges[k].source);
    }
}

proof fn lemma_shape_eq(a: GcnoView, b: GcnoView)
    requires
        shape(a) == shape(b),
    ensures
        a.functions.len() == b.functions.len(),
        a.version == b.version,
        a.checksum == b.checksum,
        a.ident == b.ident,
        forall|i: int| 0 <= i < a.functions.len() ==> fun_shape(#[trigger] a.functions[i]) == fun_shape(b.functions[i]),
{
    assert(shape(a).functions.len() == a.functions.len());
    assert(shape(b).functions.len() == b.functions.len());
    assert forall|i: int| 0 <= i < a.functions.len() implies fun_shape(#[trigger] a.functions[i]) == fun_shape(b.functions[i]) by {
        let fa = a.functions.map_values(|f: FunView| fun_shape(f));
        let fb = b.functions.map_values(|f: FunView| fun_shape(f));
        assert(shape(a).functions == fa);
        assert(shape(b).functions == fb);
        assert(fa[i] == fb[i]);
    }
}

proof fn lemma_arc_count_shape(f: FunView, k: int, c: u64)
    requires
        0 <= k < f.edges.len(),
        f.edges[k].source < f.blocks.len(),
    ensures
        fun_shape(with_arc_count(f, k, c)) == fun_shape(f),
{
    let g = with_arc_count(f, k, c);
    assert(fun_shape(g).edges =~= fun_shape(f).edges);
    assert(fun_shape(g).blocks =~= fun_shape(f).blocks);
}

proof fn lemma_arc_counts_sum(buf: Seq<u8>, p: int, l: bool, stem: Seq<char>, k: nat, x: FunView, f0: FunView, fa: FunView, y: FunView)
    requires
        fun_counts_sum(x, f0, fa, y),
    ensures
        (read_arc_counts(buf, p, l, stem, k, x) is Done && read_arc_counts(buf, p, l, stem, k, y) is Done) ==> ({
            let rx = read_arc_counts(buf, p, l, stem, k, x);
            let ry = read_arc_counts(buf, p, l, stem, k, y);
            &&& rx->Done_1 == ry->Done_1
            &&& fun_counts_sum(rx->Done_0, f0, fa, ry->Done_0)
        }),
    decreases x.edges.len() - k,
{
    lemma_fun_shape_eq(x, y);
    if k < x.edges.len() {
        assert(x.edges[k as int].flags == y.edges[k as int].flags);
        if !flag_on_tree(x.edges[k as int].flags) {
            if let Read::Done(c, q) = read_counter_at(buf, p, l, stem) {
                let e = x.edges[k as int];
                assert(e.source == y.edges[k as int].source);
                if e.source < x.blocks.len() && e.counter + c <= u64::MAX && x.blocks[e.source as int].counter + c <= u64::MAX
                    && y.edges[k as int].counter + c <= u64::MAX && y.blocks[e.source as int].counter + c <= u64::MAX {
                    let x2 = with_arc_count(x, k as int, c);
                    let y2 = with_arc_count(y, k as int, c);
                    lemma_arc_count_shape(x, k as int, c);
                    lemma_arc_count_shape(y, k as int, c);
                    lemma_fun_shape_eq(x, f0);
                    lemma_fun_shape_eq(x, fa);
                    lemma_fun_shape_eq(x, y);
                    assert forall|j: int| 0 <= j < x2.edges.len() implies
                        #[trigger] x2.edges[j].counter + f0.edges[j].counter == fa.edges[j].counter + y2.edges[j].counter by {
                        assert(x.edges[j].counter + f0.edges[j].counter == fa.edges[j].counter + y.edges[j].counter);
                        if j == k {
                            assert(x2.edges[j].counter == x.edges[j].counter + c);
                            assert(y2.edges[j].counter == y.edges[j].counter + c);
                        } else {
                            assert(x2.edges[j] == x.edges[j]);
                            assert(y2.edges[j] == y.edges[j]);
                        }
                    }
                    assert forall|j: int| 0 <= j < x2.blocks.len() implies
                        #[trigger] x2.blocks[j].counter + f0.blocks[j].counter == fa.blocks[j].counter + y2.blocks[j].counter by {
                        assert(x.blocks[j].counter + f0.blocks[j].counter == fa.blocks[j].counter + y.blocks[j].counter);
                        if j == e.source {
                            assert(x2.blocks[j].counter == x.blocks[j].counter + c);
                            assert(y2.blocks[j].counter == y.blocks[j].counter + c);
                        } else {
                            assert(x2.blocks[j] == x.blocks[j]);
                            assert(y2.blocks[j] == y.blocks[j]);
                        }
                    }
                    assert(fun_counts_sum(x2, f0, fa, y2));
                    lemma_arc_counts_sum(buf, q, l, stem, k + 1, x2, f0, fa, y2);
                }
            }
        } else {
            lemma_arc_counts_sum(buf, p, l, stem, k + 1, x, f0, fa, y);
        }
    }
}

/// Every identifier names a function of the unit.
spec fn idents_ok(g: GcnoView) -> bool {
    forall|id: u32| #[trigger] g.ident.contains_key(id) ==> g.ident[id] < g.functions.len()
}

proof fn lemma_counts_sum_same(g: GcnoView)
    ensures
        counts_sum(g, g, g, g),
{
    assert forall|i: int| 0 <= i < g.functions.len() implies
        #[trigger] fun_counts_sum(g.functions[i], g.functions[i], g.functions[i], g.functions[i]) by {}
}

proof fn lemma_counts_sum_swap(a: GcnoView, b: GcnoView)
    requires
        shape(a) == shape(b),
    ensures
        counts_sum(a, b, a, b),
{
    lemma_shape_eq(a, b);
    assert forall|i: int| 0 <= i < a.functions.len() implies
        #[trigger] fun_counts_sum(a.functions[i], b.functions[i], a.functions[i], b.functions[i]) by {
        lemma_fun_shape_eq(a.functions[i], b.functions[i]);
    }
}

proof fn lemma_body_sum(buf: Seq<u8>, p: int, l: bool, stem: Seq<char>, tag: u32, length: u32,
    x: GcnoView, g0: GcnoView, ga: GcnoView, y: GcnoView, current: Option<usize>)
    requires
        counts_sum(x, g0, ga, y),
        idents_ok(x),
        current matches Some(i) ==> i < x.functions.len(),
    ensures
        (gcda_body(buf, p, l, stem, tag, length, x, current) is Done && gcda_body(buf, p, l, stem, tag, length, y, current) is Done) ==> ({
            let bx = gcda_body(buf, p, l, stem, tag, length, x, current);
            let by = gcda_body(buf, p, l, stem, tag, length, y, current);
            &&& bx->Done_1 == by->Done_1
            &&& bx->Done_0.current == by->Done_0.current
            &&& bx->Done_0.aligns == by->Done_0.aligns
            &&& counts_sum(bx->Done_0.g, g0, ga, by->Done_0.g)
            &&& idents_ok(bx->Done_0.g)
            &&& (bx->Done_0.current matches Some(i) ==> i < bx->Done_0.g.functions.len())
        }),
{
    lemma_shape_eq(x, y);
    lemma_shape_eq(x, g0);
    lemma_shape_eq(x, ga);
    let bx = gcda_body(buf, p, l, stem, tag, length, x, current);
    let by = gcda_body(buf, p, l, stem, tag, length, y, current);
    if bx is Done && by is Done {
        if tag == GCOV_TAG_FUNCTION {
            if length >= 2 {
                let (id, p1) = (read_word(buf, p, l, stem)->Done_0, read_word(buf, p, l, stem)->Done_1);
                if x.ident.contains_key(id) {
                    let i = x.ident[id] as int;
                    assert(fun_shape(x.functions[i]) == fun_shape(y.functions[i]));
                    lemma_fun_shape_eq(x.functions[i], y.functions[i]);
                }
            }
        } else if tag == GCOV_TAG_COUNTER_ARCS {
            if let Some(i) = current {
                let fx = x.functions[i as int];
                let fy = y.functions[i as int];
                assert(fun_counts_sum(fx, g0.functions[i as int], ga.functions[i as int], fy));
                lemma_fun_shape_eq(fx, fy);
                if #[verifier::truncate] (fx.real_edge_count as u32) == length / 2 {
                    lemma_arc_counts_sum(buf, p, l, stem, 0, fx, g0.functions[i as int], ga.functions[i as int], fy);
                    let f2x = read_arc_counts(buf, p, l, stem, 0, fx)->Done_0;
                    let f2y = read_arc_counts(buf, p, l, stem, 0, fy)->Done_0;
                    let hx = GcnoView { functions: x.functions.update(i as int, f2x), ..x };
                    let hy = GcnoView { functions: y.functions.update(i as int, f2y), ..y };
                    assert(bx->Done_0.g == hx);
                    assert(by->Done_0.g == hy);
                    assert(fun_shape(f2x) == fun_shape(fx));
                    assert(shape(hx) == shape(x)) by {
                        assert(shape(hx).functions =~= shape(x).functions);
                    }
                    assert(shape(hy) == shape(y)) by {
                        assert(fun_shape(f2y) == fun_shape(fy));
                        assert(shape(hy).functions =~= shape(y).functions);
                    }
                    assert forall|j: int| 0 <= j < hx.functions.len() implies
                        #[trigger] fun_counts_sum(hx.functions[j], g0.functions[j], ga.functions[j], hy.functions[j]) by {
                        if j != i {
                            assert(fun_counts_sum(x.functions[j], g0.functions[j], ga.functions[j], y.functions[j]));
                        }
                    }
                }
            }
        }
    }
}

proof fn lemma_records_sum(buf: Seq<u8>, p: int, l: bool, stem: Seq<char>,
    x: GcnoView, g0: GcnoView, ga: GcnoView, y: GcnoView, current: Option<usize>)
    requires
        counts_sum(x, g0, ga, y),
        idents_ok(x),
        current matches Some(i) ==> i < x.functions.len(),
    ensures
        (gcda_records(buf, p, l, stem, x, current) is Done && gcda_records(buf, p, l, stem, y, current) is Done)
            ==> counts_sum(gcda_records(buf, p, l, stem, x, current)->Done_0, g0, ga, gcda_records(buf, p, l, stem, y, current)->Done_0),
    decreases buf.len() - p,
{
    if let Read::Done(tag, q) = read_word(buf, p, l, stem) {
        if tag != 0 {
            if let Read::Done(length, q2) = read_word(buf, q, l, stem) {
                lemma_body_sum(buf, q2, l, stem, tag, length, x, g0, ga, y, current);
                let bx = gcda_body(buf, q2, l, stem, tag, length, x, current);
                let by = gcda_body(buf, q2, l, stem, tag, length, y, current);
                if bx is Done && by is Done {
                    let stx = bx->Done_0;
                    let sty = by->Done_0;
                    let r = bx->Done_1;
                    let end = q2 + 4 * length;
                    let next = if stx.aligns {
                        if end > usize::MAX || end < r {
                            Read::Panic
                        } else {
                            skip_at(buf, r, end - r, stem)
                        }
                    } else {
                        Read::Done((), r)
                    };
                    if let Read::Done(_, r2) = next {
                        if p < r2 <= buf.len() {
                            lemma_records_sum(buf, r2, l, stem, stx.g, g0, ga, sty.g, stx.current);
                        }
                    }
                }
            }
        }
    }
}

/// Reading two gcda files into a unit adds up their counts: where reading
/// `a` into `g0` gives `ga`, reading `b` into `ga` gives `gab` and reading
/// `b` into `g0` gives `gb`, each count of `gab` (of an arc, a block, the
/// runs and the programs) plus that of `g0` is that of `ga` plus that of
/// `gb`, and the four units differ in nothing else. So where `g0` counts
/// nothing yet, `gab` counts what `ga` and `gb` count together.
pub proof fn lemma_gcda_reads_add(a: Seq<u8>, pa: int, la: bool, b: Seq<u8>, pb: int, lb: bool, stem: Seq<char>,
    g0: GcnoView, ga: GcnoView, gab: GcnoView, gb: GcnoView)
    requires
        gcno_wf(g0),
        gcda_read(a, pa, la, stem, g0) == Outcome::Done(ga),
        gcda_read(b, pb, lb, stem, ga) == Outcome::Done(gab),
        gcda_read(b, pb, lb, stem, g0) == Outcome::Done(gb),
    ensures
        counts_sum(gab, g0, ga, gb),
{
    lemma_counts_sum_same(g0);
    let p2a = read_word(a, read_version_at(a, pa, la, stem)->Done_1, la, stem)->Done_1;
    lemma_records_sum(a, p2a, la, stem, g0, g0, g0, g0, None);
    assert(counts_sum(ga, g0, g0, ga));
    lemma_shape_eq(ga, g0);
    lemma_counts_sum_swap(ga, g0);
    let p2b = read_word(b, read_version_at(b, pb, lb, stem)->Done_1, lb, stem)->Done_1;
    assert(idents_ok(ga));
    lemma_records_sum(b, p2b, lb, stem, ga, g0, ga, g0, None);
}

impl Gcno {
    /// Reads the counts of the arcs of a function that are not on its
    /// spanning tree, adding each to its arc and to the arc's source block.
    fn read_arc_counters<E: Endian, T: GcovReader<E>>(fun: &mut GcovFunction, reader: &mut T) -> (r: Option<Result<(), GcovReaderError>>)
        requires
            sane(old(reader).data(), old(reader).at()),
            graph_wf(old(fun)@),
        ensures
            final(reader).data() == old(reader).data(),
            final(reader).stem_chars() == old(reader).stem_chars(),
            r is Some && r->0 is Ok ==> sane(final(reader).data(), final(reader).at()),
            opt_step_agrees(r, final(fun)@, final(reader).at(),
                read_arc_counts(old(reader).data(), old(reader).at(), E::little(), old(reader).stem_chars(), 0, old(fun)@)),
            r is Some && r->0 is Ok ==> graph_wf(final(fun)@),
    {
        let ghost buf = reader.data();
        let ghost stem = reader.stem_chars();
        let ghost l = E::little();
        let ghost target = read_arc_counts(buf, reader.at(), l, stem, 0, fun@);
        let n = edge_list_slice(&fun.edges).len();
        let mut k: usize = 0;
        while k < n
            invariant
                k <= n,
                n == fun@.edges.len(),
                l == E::little(),
                reader.data() == buf,
                reader.stem_chars() == stem,
                buf == old(reader).data(),
                stem == old(reader).stem_chars(),
                target == read_arc_counts(buf, old(reader).at(), l, stem, 0, old(fun)@),
                graph_wf(fun@),
                read_arc_counts(buf, reader.at(), l, stem, k as nat, fun@) == target,
                sane(buf, reader.at()),
            decreases n - k,
        {
            let e = edge_list_slice(&fun.edges)[k];
            if e.is_on_tree() {
                k += 1;
                continue;
            }
            let c = match reader.read_counter() { Ok(x) => x, Err(e) => return Some(Err(e)) };
            let ghost f0 = fun@;
            assert(e.source < fun@.blocks.len());
            assert(block_list(fun.blocks)[e.source as int]@ == fun@.blocks[e.source as int]);
            if e.counter.checked_add(c).is_none() || block_list_slice(&fun.blocks)[e.source].counter.checked_add(c).is_none() {
                return None;
            }
            edge_list_set(&mut fun.edges, k, GcovEdge {
                source: e.source,
                destination: e.destination,
                flags: e.flags,
                counter: e.counter + c,
                cycles: e.cycles,
            });
            let ghost bl0 = block_list(fun.blocks);
            {
                let b = block_list_at(&mut fun.blocks, e.source);
                b.counter = b.counter + c;
            }
            proof {
                lemma_update_block(bl0, e.source as int, block_list(fun.blocks)[e.source as int]);
            }
            assert(fun@.blocks =~= with_arc_count(f0, k as int, c).blocks);
            assert(fun@.edges =~= with_arc_count(f0, k as int, c).edges);
            assert(fun@ == with_arc_count(f0, k as int, c));
            assert(graph_wf(fun@)) by {
                assert forall|b: int| 0 <= b < fun@.blocks.len() implies
                    #[trigger] fun@.blocks[b].source == f0.blocks[b].source
                    && fun@.blocks[b].destination == f0.blocks[b].destination by {}
                assert forall|i: int| 0 <= i < fun@.edges.len() implies
                    #[trigger] fun@.edges[i].source == f0.edges[i].source
                    && fun@.edges[i].destination == f0.edges[i].destination by {}
            }
            k += 1;
        }
        Some(Ok(()))
    }

    /// Reads a gcda file into the counts of this unit's functions.
    #[verifier::rlimit(50)]
    pub fn read_gcda<E: Endian, T: GcovReader<E>>(&mut self, reader: T) -> (r: Option<Result<(), GcovReaderError>>)
        requires
            sane(reader.data(), reader.at()),
            gcno_wf(old(self)@),
        ensures
            opt_outcome_agrees(r, final(self)@, gcda_read(reader.data(), reader.at(), E::little(), reader.stem_chars(), old(self)@)),
            r is Some && r->0 is Ok ==> gcno_wf(final(self)@),
            !gcda_header_passes(reader.data(), reader.at(), E::little(), reader.stem_chars(), old(self)@)
                ==> final(self)@ == old(self)@,
    {
        let ghost whole = gcda_read(reader.data(), reader.at(), E::little(), reader.stem_chars(), self@);
        let ghost hp = gcda_header_passes(reader.data(), reader.at(), E::little(), reader.stem_chars(), self@);
        let mut rd = reader;
        if rd.version_panics() { return None; }
        let version = match rd.read_version() { Ok(x) => x, Err(e) => return Some(Err(e)) };
        if version != self.version {
            let mut m = "GCOV versions do not match in ".to_owned();
            m.append(rd.get_stem());
            return Some(Err(GcovReaderError::Str(m)));
        }
        let checksum = match rd.read_u32() { Ok(x) => x, Err(e) => return Some(Err(e)) };
        if checksum != self.checksum {
            let mut m = "File checksums do not match: ".to_owned();
            push_decimal(&mut m, self.checksum as u64);
            m.append(" != ");
            push_decimal(&mut m, checksum as u64);
            m.append(" in ");
            m.append(rd.get_stem());
            return Some(Err(GcovReaderError::Str(m)));
        }
        let ghost buf = rd.data();
        let ghost stem = rd.stem_chars();
        let ghost l = E::little();
        let ghost target = gcda_records(buf, rd.at(), l, stem, self@, None);
        assert(hp);
        let mut current_fun_id: Option<usize> = None;
        loop
            invariant_except_break
                rd.at() <= buf.len(),
                gcda_records(buf, rd.at(), l, stem, self@, current_fun_id) == target,
            invariant
                hp,
                hp == gcda_header_passes(reader.data(), reader.at(), E::little(), reader.stem_chars(), old(self)@),
                l == E::little(),
                rd.data() == buf,
                rd.stem_chars() == stem,
                whole == target,
                whole == gcda_read(reader.data(), reader.at(), E::little(), reader.stem_chars(), old(self)@),
                gcno_wf(self@),
                version == self@.version,
                current_fun_id is Some ==> current_fun_id->0 < self@.functions.len(),
                buf.len() + 8 <= usize::MAX,
                0 <= rd.at(),
            ensures
                outcome_agrees(Ok(()), self@, target),
                gcno_wf(self@),
            decreases buf.len() - rd.at(),
        {
            let ghost p = rd.at();
            let ghost g0 = self@;
            let tag = match rd.read_u32() {
                Ok(t) => t,
                Err(_) => break,
            };
            if tag == 0 {
                break;
            }
            let ghost q = rd.at();
            assert(read_word(buf, p, l, stem) == Read::Done(tag, q));
            let length = match rd.read_u32() {
                Ok(x) => x,
                Err(e) => {
                    assert(read_word(buf, q, l, stem) is Fail);
                    assert(target == Outcome::Failed(read_word(buf, q, l, stem)->Fail_0));
                    assert(e@ == ReadErrorView::Str(read_word(buf, q, l, stem)->Fail_0));
                    assert(whole == Outcome::Failed(read_word(buf, q, l, stem)->Fail_0));
                    return Some(Err(e));
                },
            };
            let start = rd.get_pos();
            match self.read_gcda_record(tag, length, version, &mut current_fun_id, &mut rd) {
                Some(Ok(())) => {},
                Some(Err(e)) => return Some(Err(e)),
                None => return None,
            }
            if rd.get_pos() <= start - 8 {
                return None;
            }
        }
        Some(Ok(()))
    }
}

impl Gcno {
    /// Reads the body of a gcda record; the result says whether the reader
    /// is then to move to the end of the record.
    fn read_gcda_body<E: Endian, T: GcovReader<E>>(&mut self, tag: u32, length: u32, version: u32, current_fun_id: &mut Option<usize>, reader: &mut T) -> (r: Option<Result<bool, GcovReaderError>>)
        requires
            sane(old(reader).data(), old(reader).at()),
            gcno_wf(old(self)@),
            version == old(self)@.version,
            *old(current_fun_id) is Some ==> (*old(current_fun_id))->0 < old(self)@.functions.len(),
        ensures
            final(reader).data() == old(reader).data(),
            final(reader).stem_chars() == old(reader).stem_chars(),
            r is Some && r->0 is Ok ==> sane(final(reader).data(), final(reader).at()),
            match gcda_body(old(reader).data(), old(reader).at(), E::little(), old(reader).stem_chars(), tag, length, old(self)@, *old(current_fun_id)) {
                Read::Done(st, q) => r == Some(Ok::<bool, GcovReaderError>(st.aligns)) && final(self)@ == st.g
                    && *final(current_fun_id) == st.current && final(reader).at() == q,
                Read::Fail(m, q) => r is Some && r->0 is Err && r->0->Err_0@ == ReadErrorView::Str(m),
                Read::Panic => r is None,
            },
            r is Some && r->0 is Ok ==> gcno_wf(final(self)@),
            r is Some && r->0 is Ok ==> final(self)@.version == old(self)@.version,
            r is Some && r->0 is Ok && *final(current_fun_id) is Some ==> (*final(current_fun_id))->0 < final(self)@.functions.len(),
    {
        let ghost g0 = self@;
        if tag == GCOV_TAG_FUNCTION {
            if length == 0 {
                return Some(Ok(false));
            }
            if length == 1 {
                let mut m = "Invalid header length in ".to_owned();
                m.append(reader.get_stem());
                return Some(Err(GcovReaderError::Str(m)));
            }
            let id = match reader.read_u32() { Ok(x) => x, Err(e) => return Some(Err(e)) };
            let line_sum = match reader.read_u32() { Ok(x) => x, Err(e) => return Some(Err(e)) };
            let cfg_sum = if version >= 47 {
                match reader.read_u32() { Ok(x) => x, Err(e) => return Some(Err(e)) }
            } else {
                0
            };
            match ident_map_get(&self.ident_to_fun, id) {
                Some(fun_id) => {
                    let fun = &self.functions[fun_id];
                    if line_sum != fun.line_checksum || cfg_sum != fun.cfg_checksum {
                        let mut m = "Checksum mismatch (".to_owned();
                        push_decimal(&mut m, line_sum as u64);
                        m.append(", ");
                        push_decimal(&mut m, fun.line_checksum as u64);
                        m.append(") != (");
                        push_decimal(&mut m, cfg_sum as u64);
                        m.append(", ");
                        push_decimal(&mut m, fun.cfg_checksum as u64);
                        m.append(") in ");
                        m.append(reader.get_stem());
                        return Some(Err(GcovReaderError::Str(m)));
                    }
                    *current_fun_id = Some(fun_id);
                },
                None => {
                    let mut m = "Invalid function identifier ".to_owned();
                    push_decimal(&mut m, id as u64);
                    m.append(" in ");
                    m.append(reader.get_stem());
                    return Some(Err(GcovReaderError::Str(m)));
                },
            }
        } else if tag == GCOV_TAG_COUNTER_ARCS {
            let fun_id = match *current_fun_id {
                Some(i) => i,
                None => return Some(Ok(false)),
            };
            if #[verifier::truncate] (self.functions[fun_id].real_edge_count as u32) != length / 2 {
                let mut m = "Unexpected number of edges (in ".to_owned();
                m.append(self.functions[fun_id].name.as_str());
                m.append(") in ");
                m.append(reader.get_stem());
                return Some(Err(GcovReaderError::Str(m)));
            }
            assert(graph_wf(g0.functions[fun_id as int]));
            let ghost fs0 = self.functions@;
            let r = Self::read_arc_counters(&mut self.functions[fun_id], reader);
            assert(self@.functions =~= g0.functions.update(fun_id as int, self.functions@[fun_id as int]@));
            match r {
                Some(Ok(())) => {},
                Some(Err(e)) => return Some(Err(e)),
                None => return None,
            }
            assert(gcno_wf(self@)) by {
                assert forall|i: int| 0 <= i < self@.functions.len() implies #[trigger] graph_wf(self@.functions[i]) by {
                    if i != fun_id as int {
                        assert(self@.functions[i] == g0.functions[i]);
                    }
                }
            }
        } else if tag == GCOV_TAG_OBJECT_SUMMARY {
            let runcounts = match reader.read_u32() { Ok(x) => x, Err(e) => return Some(Err(e)) };
            match reader.skip_u32() { Ok(_) => {}, Err(e) => return Some(Err(e)) }
            let add = if length == 9 {
                match reader.read_u32() { Ok(x) => x, Err(e) => return Some(Err(e)) }
            } else {
                runcounts
            };
            self.runcounts = match self.runcounts.checked_add(add) {
                Some(x) => x,
                None => return None,
            };
        } else if tag == GCOV_TAG_PROGRAM_SUMMARY {
            if length > 0 {
                match reader.skip_u32() { Ok(_) => {}, Err(e) => return Some(Err(e)) }
                match reader.skip_u32() { Ok(_) => {}, Err(e) => return Some(Err(e)) }
                let add = match reader.read_u32() { Ok(x) => x, Err(e) => return Some(Err(e)) };
                self.runcounts = match self.runcounts.checked_add(add) {
                    Some(x) => x,
                    None => return None,
                };
            }
            self.programcounts = match self.programcounts.checked_add(1) {
                Some(x) => x,
                None => return None,
            };
        }
        Some(Ok(true))
    }
}

impl Gcno {
    /// Reads the length and the body of a gcno record with tag `tag`.
    #[verifier::rlimit(50)]
    fn read_gcno_record<E: Endian, T: GcovReader<E>>(&mut self, tag: u32, reader: &mut T) -> (r: Option<Result<(), GcovReaderError>>)
        requires
            sane(old(reader).data(), old(reader).at()),
            gcno_wf(old(self)@),
        ensures
            final(reader).data() == old(reader).data(),
            final(reader).stem_chars() == old(reader).stem_chars(),
            match gcno_record(old(reader).data(), old(reader).at(), E::little(), old(reader).stem_chars(), tag, old(self)@) {
                Read::Done(g, q) => r == Some(Ok::<(), GcovReaderError>(())) && final(self)@ == g && final(reader).at() == q,
                Read::Fail(m, q) => r is Some && r->0 is Err && r->0->Err_0@ == ReadErrorView::Str(m),
                Read::Panic => r is None,
            },
            r is Some && r->0 is Ok ==> gcno_wf(final(self)@) && sane(final(reader).data(), final(reader).at()),
    {
        let ghost g0 = self@;
        let ghost q = reader.at();
        let length = match reader.read_u32() { Ok(x) => x, Err(e) => return Some(Err(e)) };
        let version = self.version;
        if tag == GCOV_TAG_FUNCTION {
            let f = match Self::read_fn_header(reader, version) { Some(Ok(x)) => x, Some(Err(e)) => return Some(Err(e)), None => return None };
            let pos = self.functions.len();
            if pos == usize::MAX {
                return None;
            }
            let id = f.identifier;
            let ghost fv = f@;
            self.functions.push(f);
            ident_map_insert(&mut self.ident_to_fun, id, pos);
            assert(self@.functions =~= g0.functions.push(fv));
            assert(self@ == with_function(g0, fv));
            assert(graph_wf(fv));
            assert(gcno_wf(self@)) by {
                assert forall|i: int| 0 <= i < self@.functions.len() implies #[trigger] graph_wf(self@.functions[i]) by {
                    if i < g0.functions.len() {
                        assert(self@.functions[i] == g0.functions[i]);
                    }
                }
            }
        } else if tag == GCOV_TAG_BLOCKS || tag == GCOV_TAG_ARCS || tag == GCOV_TAG_LINES {
            if self.functions.len() == 0 {
                return Some(Ok(()));
            }
            let mut f = self.functions.pop().unwrap();
            let ghost f0 = f@;
            assert(f0 == g0.functions.last());
            assert(graph_wf(f0)) by {
                assert(graph_wf(g0.functions[g0.functions.len() - 1]));
            }
            let r = if tag == GCOV_TAG_BLOCKS {
                Self::read_blocks(&mut f, length, version, reader)
            } else if tag == GCOV_TAG_ARCS {
                Self::read_edges(&mut f, length, reader)
            } else {
                Self::read_lines(&mut f, version, reader)
            };
            let ghost fv = f@;
            self.functions.push(f);
            assert(self@.functions =~= g0.functions.update(g0.functions.len() - 1, fv));
            match r {
                Some(Ok(())) => {},
                Some(Err(e)) => return Some(Err(e)),
                None => return None,
            }
            assert(self@ == with_last(g0, fv));
            assert(gcno_wf(self@)) by {
                assert forall|i: int| 0 <= i < self@.functions.len() implies #[trigger] graph_wf(self@.functions[i]) by {
                    if i < g0.functions.len() - 1 {
                        assert(self@.functions[i] == g0.functions[i]);
                    }
                }
            }
        }
        Some(Ok(()))
    }
}

impl Gcno {
    /// Reads the body of a gcda record whose tag and length are read, then
    /// moves to the end of the record where it is to.
    fn read_gcda_record<E: Endian, T: GcovReader<E>>(&mut self, tag: u32, length: u32, version: u32, current_fun_id: &mut Option<usize>, reader: &mut T) -> (r: Option<Result<(), GcovReaderError>>)
        requires
            sane(old(reader).data(), old(reader).at()),
            gcno_wf(old(self)@),
            version == old(self)@.version,
            *old(current_fun_id) is Some ==> (*old(current_fun_id))->0 < old(self)@.functions.len(),
        ensures
            final(reader).data() == old(reader).data(),
            final(reader).stem_chars() == old(reader).stem_chars(),
            match gcda_body(old(reader).data(), old(reader).at(), E::little(), old(reader).stem_chars(), tag, length, old(self)@, *old(current_fun_id)) {
                Read::Done(st, q) => {
                    let end = old(reader).at() + 4 * length;
                    let next = if st.aligns {
                        if end > usize::MAX || end < q { Read::Panic } else { skip_at(old(reader).data(), q, end - q, old(reader).stem_chars()) }
                    } else {
                        Read::Done((), q)
                    };
                    match next {
                        Read::Done(_, r2) => r == Some(Ok::<(), GcovReaderError>(())) && final(self)@ == st.g
                            && *final(current_fun_id) == st.current && final(reader).at() == r2,
                        Read::Fail(m, _) => r is Some && r->0 is Err && r->0->Err_0@ == ReadErrorView::Str(m),
                        Read::Panic => r is None,
                    }
                },
                Read::Fail(m, q) => r is Some && r->0 is Err && r->0->Err_0@ == ReadErrorView::Str(m),
                Read::Panic => r is None,
            },
            r is Some && r->0 is Ok ==> gcno_wf(final(self)@) && final(self)@.version == old(self)@.version
                && sane(final(reader).data(), final(reader).at()),
            r is Some && r->0 is Ok && *final(current_fun_id) is Some ==> (*final(current_fun_id))->0 < final(self)@.functions.len(),
    {
        let pos = reader.get_pos();
        let aligns = match self.read_gcda_body(tag, length, version, current_fun_id, reader) {
            Some(Ok(x)) => x,
            Some(Err(e)) => return Some(Err(e)),
            None => return None,
        };
        if !aligns {
            return Some(Ok(()));
        }
        let words = match (length as usize).checked_mul(4) {
            Some(x) => x,
            None => return None,
        };
        let end = match pos.checked_add(words) {
            Some(x) => x,
            None => return None,
        };
        let at = reader.get_pos();
        if end < at {
            return None;
        }
        match reader.skip(end - at) {
            Ok(_) => {},
            Err(e) => return Some(Err(e)),
        }
        Some(Ok(()))
    }
}

}
