use vstd::prelude::*;
use vstd::string::StringExecFns;
use crate::text::{decode_utf8, utf8_decode, chars_of, decimal, push_decimal};
use crate::paths::{extension_of, without_extension, file_name_of, path_extension, path_without_extension, path_file_name};

verus! {

/// The stem of a gcno file (its path without the extension), and whether
/// LLVM wrote it.
#[derive(Debug, PartialEq, Eq, Hash)]
pub struct GCNOStem {
    pub stem: String,
    pub llvm: bool,
}

/// Whether the first bytes of a file are those of a gcno file written by LLVM.
pub open spec fn gcno_llvm_header(h: Seq<u8>) -> bool {
    &&& h.len() >= 8
    &&& h.subrange(0, 5) == seq![111u8, 110, 99, 103, 42]
    &&& (h.subrange(5, 8) == seq![50u8, 48, 52] || h.subrange(5, 8) == seq![56u8, 48, 52])
}

/// Whether the first bytes of a file are those of an lcov file: `TN:` or `SF:`.
pub open spec fn info_header(h: Seq<u8>) -> bool {
    h.len() >= 3 && (h.subrange(0, 3) == seq![84u8, 78, 58] || h.subrange(0, 3) == seq![83u8, 70, 58])
}

/// Whether a text holds a piece.
pub open spec fn holds_piece(t: Seq<char>, p: Seq<char>) -> bool {
    exists|i: int| 0 <= i && i + p.len() <= t.len() && #[trigger] t.subrange(i, i + p.len()) == p
}

/// Whether the first 256 bytes of a file are UTF-8 text that names the
/// JaCoCo document type.
pub open spec fn jacoco_header(h: Seq<u8>) -> bool {
    h.len() >= 256 && match utf8_decode(h.subrange(0, 256)) {
        Some(t) => holds_piece(t, "-//JACOCO//DTD"@),
        None => false,
    }
}

/// Whether the bytes `h[a..a+n]` are the given ones.
fn bytes_at(h: &[u8], a: usize, want: &[u8]) -> (b: bool)
    requires
        a + want@.len() <= h@.len(),
    ensures
        b == (h@.subrange(a as int, a + want@.len()) == want@),
{
    let n = h.len();
    let mut k: usize = 0;
    while k < want.len()
        invariant
            k <= want@.len(),
            a + want@.len() <= h@.len(),
            h@.len() == n,
            forall|j: int| 0 <= j < k ==> h@[a + j] == want@[j],
        decreases want@.len() - k,
    {
        if h[a + k] != want[k] {
            assert(h@.subrange(a as int, a + want@.len())[k as int] != want@[k as int]);
            return false;
        }
        k += 1;
    }
    assert(h@.subrange(a as int, a + want@.len()) =~= want@);
    true
}

/// Whether the first bytes of a file are those of a gcno file written by LLVM.
pub fn is_gcno_llvm(h: &[u8]) -> (b: bool)
    ensures
        b == gcno_llvm_header(h@),
{
    if h.len() < 8 {
        return false;
    }
    let a = bytes_at(h, 0, &[111u8, 110, 99, 103, 42]);
    let x = bytes_at(h, 5, &[50u8, 48, 52]);
    let y = bytes_at(h, 5, &[56u8, 48, 52]);
    assert(seq![111u8, 110, 99, 103, 42] =~= [111u8, 110, 99, 103, 42]@);
    assert(seq![50u8, 48, 52] =~= [50u8, 48, 52]@);
    assert(seq![56u8, 48, 52] =~= [56u8, 48, 52]@);
    a && (x || y)
}

/// Whether a byte sequence starts with the given bytes.
pub open spec fn starts_with_bytes(h: Seq<u8>, p: Seq<u8>) -> bool {
    p.len() <= h.len() && h.subrange(0, p.len() as int) == p
}

/// Whether the first bytes of a file are those of an executable or a
/// library: ELF, PE (`MZ`), Mach-O (either byte order, 32 or 64 bits, or
/// universal), or COFF for i386, x86-64, ARM or ARM64.
pub open spec fn known_binary(h: Seq<u8>) -> bool {
    ||| starts_with_bytes(h, seq![0x7Fu8, 0x45, 0x4C, 0x46])
    ||| starts_with_bytes(h, seq![0x4Du8, 0x5A])
    ||| starts_with_bytes(h, seq![0xFEu8, 0xED, 0xFA, 0xCE])
    ||| starts_with_bytes(h, seq![0xFEu8, 0xED, 0xFA, 0xCF])
    ||| starts_with_bytes(h, seq![0xCAu8, 0xFE, 0xBA, 0xBE])
    ||| starts_with_bytes(h, seq![0xCEu8, 0xFA, 0xED, 0xFE])
    ||| starts_with_bytes(h, seq![0xCFu8, 0xFA, 0xED, 0xFE])
    ||| (h.len() >= 2 && {
        let m = h[0] + 256 * h[1];
        m == 0x014C || m == 0x8664 || m == 0x01C0 || m == 0xAA64
    })
}

/// Whether `h` starts with `p`.
fn starts_with_exec(h: &[u8], p: &[u8]) -> (b: bool)
    ensures
        b == starts_with_bytes(h@, p@),
{
    if p.len() > h.len() {
        return false;
    }
    bytes_at(h, 0, p)
}

/// Whether the first bytes of a file are those of a binary (see
/// [`known_binary`]).
pub fn is_known_binary(h: &[u8]) -> (b: bool)
    ensures
        b == known_binary(h@),
{
    let elf = starts_with_exec(h, &[0x7Fu8, 0x45, 0x4C, 0x46]);
    let pe = starts_with_exec(h, &[0x4Du8, 0x5A]);
    let m1 = starts_with_exec(h, &[0xFEu8, 0xED, 0xFA, 0xCE]);
    let m2 = starts_with_exec(h, &[0xFEu8, 0xED, 0xFA, 0xCF]);
    let m3 = starts_with_exec(h, &[0xCAu8, 0xFE, 0xBA, 0xBE]);
    let m4 = starts_with_exec(h, &[0xCEu8, 0xFA, 0xED, 0xFE]);
    let m5 = starts_with_exec(h, &[0xCFu8, 0xFA, 0xED, 0xFE]);
    assert(seq![0x7Fu8, 0x45, 0x4C, 0x46] =~= [0x7Fu8, 0x45, 0x4C, 0x46]@);
    assert(seq![0x4Du8, 0x5A] =~= [0x4Du8, 0x5A]@);
    assert(seq![0xFEu8, 0xED, 0xFA, 0xCE] =~= [0xFEu8, 0xED, 0xFA, 0xCE]@);
    assert(seq![0xFEu8, 0xED, 0xFA, 0xCF] =~= [0xFEu8, 0xED, 0xFA, 0xCF]@);
    assert(seq![0xCAu8, 0xFE, 0xBA, 0xBE] =~= [0xCAu8, 0xFE, 0xBA, 0xBE]@);
    assert(seq![0xCEu8, 0xFA, 0xED, 0xFE] =~= [0xCEu8, 0xFA, 0xED, 0xFE]@);
    assert(seq![0xCFu8, 0xFA, 0xED, 0xFE] =~= [0xCFu8, 0xFA, 0xED, 0xFE]@);
    let coff = if h.len() >= 2 {
        let m: u32 = h[0] as u32 + 256 * (h[1] as u32);
        m == 0x014C || m == 0x8664 || m == 0x01C0 || m == 0xAA64
    } else {
        false
    };
    elf || pe || m1 || m2 || m3 || m4 || m5 || coff
}

/// Whether the first bytes of a file are those of an lcov file.
pub fn is_info(h: &[u8]) -> (b: bool)
    ensures
        b == info_header(h@),
{
    if h.len() < 3 {
        return false;
    }
    let x = bytes_at(h, 0, &[84u8, 78, 58]);
    let y = bytes_at(h, 0, &[83u8, 70, 58]);
    assert(seq![84u8, 78, 58] =~= [84u8, 78, 58]@);
    assert(seq![83u8, 70, 58] =~= [83u8, 70, 58]@);
    x || y
}

/// Whether a text holds a piece.
fn contains_piece(t: &Vec<char>, p: &Vec<char>) -> (b: bool)
    ensures
        b == holds_piece(t@, p@),
{
    if p.len() > t.len() {
        return false;
    }
    let mut i: usize = 0;
    while i <= t.len() - p.len()
        invariant
            p@.len() <= t@.len(),
            t@.len() <= usize::MAX,
            i <= t@.len() - p@.len() + 1,
            forall|j: int| 0 <= j < i ==> #[trigger] t@.subrange(j, j + p@.len()) != p@,
        decreases t@.len() - i,
    {
        let mut same = true;
        let mut k: usize = 0;
        while k < p.len()
            invariant
                k <= p@.len(),
                i + p@.len() <= t@.len(),
                t@.len() <= usize::MAX,
                same == forall|m: int| 0 <= m < k ==> t@[i + m] == p@[m],
            decreases p@.len() - k,
        {
            if t[i + k] != p[k] {
                same = false;
            }
            k += 1;
        }
        if same {
            assert(t@.subrange(i as int, i + p@.len()) =~= p@);
            return true;
        }
        assert(t@.subrange(i as int, i + p@.len()) != p@) by {
            let m = choose|m: int| 0 <= m < p@.len() && t@[i + m] != p@[m];
            assert(t@.subrange(i as int, i + p@.len())[m] != p@[m]);
        }
        i += 1;
    }
    assert forall|j: int| 0 <= j && j + p@.len() <= t@.len() implies #[trigger] t@.subrange(j, j + p@.len()) != p@ by {
        assert(j < i);
    }
    false
}

/// Whether the first 256 bytes of a file name the JaCoCo document type.
pub fn is_jacoco(h: &[u8]) -> (b: bool)
    ensures
        b == jacoco_header(h@),
{
    if h.len() < 256 {
        return false;
    }
    let first = vstd::slice::slice_subrange(h, 0, 256);
    match decode_utf8(first) {
        Some(t) => {
            let tc = chars_of(t.as_str());
            let pc = chars_of("-//JACOCO//DTD");
            contains_piece(&tc, &pc)
        }
        None => false,
    }
}

/// What a file of an archive or directory holds, as its name and first
/// bytes tell.
pub enum FileKind {
    /// A gcno file, by its stem.
    Gcno(GCNOStem),
    /// A gcda file, by its stem.
    Gcda(String),
    /// A raw LLVM profile.
    Profraw(String),
    /// An lcov file.
    Info(String),
    /// A JaCoCo XML report.
    JacocoXml(String),
    /// A map of linked files.
    LinkedFilesMap(String),
    /// Anything else.
    Other,
}

/// A file's first bytes, where it could be opened, pass a check.
pub open spec fn header_passes(header: Option<Vec<u8>>, check: spec_fn(Seq<u8>) -> bool) -> bool {
    match header {
        Some(h) => check(h@),
        None => false,
    }
}

/// What a file holds, by the extension of its path: gcno and gcda files by
/// their stem (a gcno file is LLVM's where asked or where its first bytes
/// say so), raw profiles, lcov and JaCoCo files whose first bytes say so,
/// and the map of linked files.
pub fn classify_file(path: &str, header: Option<Vec<u8>>, is_llvm: bool) -> (k: FileKind)
    ensures
        match path_extension(path@) {
            None => k is Other,
            Some(e) => if e == "gcno"@ {
                k matches FileKind::Gcno(g) && g.stem@ == path_without_extension(path@)
                    && g.llvm == (is_llvm || header_passes(header, |h: Seq<u8>| gcno_llvm_header(h)))
            } else if e == "gcda"@ {
                k matches FileKind::Gcda(s) && s@ == path_without_extension(path@)
            } else if e == "profraw"@ {
                k matches FileKind::Profraw(s) && s@ == path@
            } else if e == "info"@ {
                if header_passes(header, |h: Seq<u8>| info_header(h)) { k matches FileKind::Info(s) && s@ == path@ } else { k is Other }
            } else if e == "xml"@ {
                if header_passes(header, |h: Seq<u8>| jacoco_header(h)) { k matches FileKind::JacocoXml(s) && s@ == path@ } else { k is Other }
            } else if e == "json"@ {
                if path_file_name(path@) == Some("linked-files-map.json"@) { k matches FileKind::LinkedFilesMap(s) && s@ == path@ } else { k is Other }
            } else {
                k is Other
            },
        },
{
    let ext = match extension_of(path) {
        Some(e) => e,
        None => { return FileKind::Other; }
    };
    let e = ext.as_str();
    if crate::gcov::str_same(e, "gcno") {
        let llvm = is_llvm || match &header {
            Some(h) => is_gcno_llvm(h.as_slice()),
            None => false,
        };
        FileKind::Gcno(GCNOStem { stem: without_extension(path), llvm: llvm })
    } else if crate::gcov::str_same(e, "gcda") {
        FileKind::Gcda(without_extension(path))
    } else if crate::gcov::str_same(e, "profraw") {
        FileKind::Profraw(path.to_owned())
    } else if crate::gcov::str_same(e, "info") {
        let ok = match &header {
            Some(h) => is_info(h.as_slice()),
            None => false,
        };
        if ok { FileKind::Info(path.to_owned()) } else { FileKind::Other }
    } else if crate::gcov::str_same(e, "xml") {
        let ok = match &header {
            Some(h) => is_jacoco(h.as_slice()),
            None => false,
        };
        if ok { FileKind::JacocoXml(path.to_owned()) } else { FileKind::Other }
    } else if crate::gcov::str_same(e, "json") {
        match file_name_of(path) {
            Some(n) => {
                if crate::gcov::str_same(n.as_str(), "linked-files-map.json") {
                    FileKind::LinkedFilesMap(path.to_owned())
                } else {
                    FileKind::Other
                }
            }
            None => FileKind::Other,
        }
    } else {
        FileKind::Other
    }
}

/// The name of the `num`-th copy of a file of a stem: `stem_num.ext`.
pub open spec fn numbered(stem: Seq<char>, num: nat, ext: Seq<char>) -> Seq<char> {
    stem + "_"@ + decimal(num) + "."@ + ext
}

/// The name of the `num`-th copy of a file of a stem.
pub fn numbered_name(stem: &str, num: u64, ext: &str) -> (r: String)
    ensures
        r@ == numbered(stem@, num as nat, ext@),
{
    let mut r = stem.to_owned();
    r.append("_");
    push_decimal(&mut r, num);
    r.append(".");
    r.append(ext);
    r
}

/// What becomes of a gcno file and the gcda files of the same stem.
pub enum GcnoPlan {
    /// Read the gcno file and the gcda files into memory and send them
    /// together (an LLVM gcno file).
    Buffers,
    /// Copy the gcno file once per gcda file and send each pair to gcov.
    Pairs,
    /// Send the gcno file alone: it has no gcda file (an LLVM gcno file is
    /// read into memory, another copied for gcov).
    Alone,
    /// Leave the gcno file out: it has no gcda file and such files are
    /// ignored.
    Skip,
}

/// What becomes of a gcno file, by whether LLVM wrote it, whether gcda files
/// of its stem were found, and whether gcno files without one are ignored.
pub fn plan_gcno(llvm: bool, has_gcda: bool, ignore_orphan_gcno: bool) -> (p: GcnoPlan)
    ensures
        has_gcda && llvm ==> p is Buffers,
        has_gcda && !llvm ==> p is Pairs,
        !has_gcda && !ignore_orphan_gcno ==> p is Alone,
        !has_gcda && ignore_orphan_gcno ==> p is Skip,
{
    if has_gcda {
        if llvm { GcnoPlan::Buffers } else { GcnoPlan::Pairs }
    } else if ignore_orphan_gcno {
        GcnoPlan::Skip
    } else {
        GcnoPlan::Alone
    }
}

/// Whether the `num`-th pair (from 0) of a gcno file and a gcda file goes to
/// gcov: where the gcda file could be extracted, or, for the first pair,
/// where gcno files without data are kept.
pub fn send_pair(num: usize, extracted: bool, ignore_orphan_gcno: bool) -> (b: bool)
    ensures
        b == (extracted || (num == 0 && !ignore_orphan_gcno)),
{
    extracted || (num == 0 && !ignore_orphan_gcno)
}

/// What an input path given on the command line is read as.
#[derive(Debug, PartialEq, Eq)]
pub enum InputKind {
    /// A zip archive.
    Zip,
    /// A directory, walked for coverage files.
    Dir,
    /// A coverage file read as it is.
    Plain,
    /// A file with another extension, which is refused.
    BadExtension,
    /// A file without an extension, which is refused.
    NoExtension,
}

/// Whether a text ends with `.zip`.
pub open spec fn ends_zip(t: Seq<char>) -> bool {
    t.len() >= 4 && t.subrange(t.len() - 4, t.len() as int) == ".zip"@
}

/// The extensions of coverage files read as they are.
pub open spec fn plain_extension(e: Seq<char>) -> bool {
    e == "info"@ || e == "json"@ || e == "xml"@ || e == "profraw"@
}

/// How an input path is read: a path ending in `.zip` is an archive; else
/// a directory (`is_dir`, of the path made absolute as `full_path`) is
/// walked; else a file whose extension is `info`, `json`, `xml` or
/// `profraw` is read as it is, and any other file is refused.
pub fn classify_input(path: &str, full_path: &str, is_dir: bool) -> (k: InputKind)
    ensures
        k == (if ends_zip(path@) {
            InputKind::Zip
        } else if is_dir {
            InputKind::Dir
        } else {
            match path_extension(full_path@) {
                Some(e) => if plain_extension(e) { InputKind::Plain } else { InputKind::BadExtension },
                None => InputKind::NoExtension,
            }
        }),
{
    let cs = chars_of(path);
    proof { reveal_strlit(".zip"); }
    let n = cs.len();
    if n >= 4 && cs[n - 4] == '.' && cs[n - 3] == 'z' && cs[n - 2] == 'i' && cs[n - 1] == 'p' {
        assert(cs@.subrange(n - 4, n as int) =~= ".zip"@);
        return InputKind::Zip;
    }
    assert(!ends_zip(path@)) by {
        if ends_zip(path@) {
            assert(cs@.subrange(n - 4, n as int)[0] == '.');
            assert(cs@.subrange(n - 4, n as int)[1] == 'z');
            assert(cs@.subrange(n - 4, n as int)[2] == 'i');
            assert(cs@.subrange(n - 4, n as int)[3] == 'p');
        }
    }
    if is_dir {
        return InputKind::Dir;
    }
    match extension_of(full_path) {
        Some(e) => {
            proof {
                reveal_strlit("info");
                reveal_strlit("json");
                reveal_strlit("xml");
                reveal_strlit("profraw");
            }
            let ec = chars_of(e.as_str());
            if text_is(&ec, "info") || text_is(&ec, "json") || text_is(&ec, "xml") || text_is(&ec, "profraw") {
                InputKind::Plain
            } else {
                InputKind::BadExtension
            }
        },
        None => InputKind::NoExtension,
    }
}

/// Whether the characters `c` are those of `t`.
fn text_is(c: &Vec<char>, t: &str) -> (b: bool)
    ensures
        b == (c@ == t@),
{
    let d = chars_of(t);
    if c.len() != d.len() {
        return false;
    }
    let mut k: usize = 0;
    while k < c.len()
        invariant
            k <= c@.len(),
            c@.len() == d@.len(),
            d@ == t@,
            forall|j: int| 0 <= j < k ==> c@[j] == d@[j],
        decreases c@.len() - k,
    {
        if c[k] != d[k] {
            return false;
        }
        k += 1;
    }
    assert(c@ =~= d@);
    true
}

}
