//! Offline-dictionary support: the `.ifo` header, the `.idx` word index
//! and the dictionary payload, parsed from bytes already read in, and
//! looked up by case-folded binary search.

use vstd::prelude::*;
use vstd::string::StrSliceExecFns;
use crate::textutil::{find_char_from, lemma_find_char_from, lemma_lex_cmp_antisym,
    lemma_lex_cmp_eq, lemma_lex_cmp_trans, lex_cmp, lower_of, parse_usize, parse_usize_spec, scan_char, str_eq,
    str_lex_cmp, to_lower};
use vstd::string::StringExecFns;

verus! {

/// What can go wrong reading a dictionary.
#[derive(Clone, Copy, Debug, PartialEq, Eq, Structural)]
pub enum DictError {
    /// A numeric field of the `.ifo` header does not parse.
    BadIfo,
    /// The `.idx` data ends in the middle of an entry, or holds an offset
    /// or size beyond the machine's range.
    BadIdx,
    /// The header names no known format version.
    BadVersion,
    /// The compressed dictionary payload cannot be decoded.
    BadGzip,
    /// A lookup found nothing, or pointed outside the payload.
    NotFound,
}

/// The dictionary format version named in the `.ifo` header.
#[derive(Clone, Copy, Debug, PartialEq, Eq, Structural)]
pub enum Version {
    V242,
    V300,
    Unknown,
}

/// The mathematical content of a parsed `.ifo` header.
#[verifier::ext_equal]
pub ghost struct IfoView {
    pub version: Version,
    pub bookname: Seq<char>,
    pub wordcount: nat,
    pub synwordcount: nat,
    pub idxfilesize: nat,
    pub idxoffsetbits: nat,
    pub author: Seq<char>,
    pub email: Seq<char>,
    pub website: Seq<char>,
    pub description: Seq<char>,
    pub date: Seq<char>,
    pub sametypesequence: Seq<char>,
    pub dicttype: Seq<char>,
}

/// The parsed `.ifo` header of a dictionary.
#[derive(Debug)]
pub struct Ifo {
    pub version: Version,
    pub bookname: String,
    pub wordcount: usize,
    pub synwordcount: usize,
    pub idxfilesize: usize,
    pub idxoffsetbits: usize,
    pub author: String,
    pub email: String,
    pub website: String,
    pub description: String,
    pub date: String,
    pub sametypesequence: String,
    pub dicttype: String,
}

impl View for Ifo {
    type V = IfoView;

    open spec fn view(&self) -> IfoView {
        IfoView {
            version: self.version,
            bookname: self.bookname@,
            wordcount: self.wordcount as nat,
            synwordcount: self.synwordcount as nat,
            idxfilesize: self.idxfilesize as nat,
            idxoffsetbits: self.idxoffsetbits as nat,
            author: self.author@,
            email: self.email@,
            website: self.website@,
            description: self.description@,
            date: self.date@,
            sametypesequence: self.sametypesequence@,
            dicttype: self.dicttype@,
        }
    }
}

/// The text a known format version writes in the header.
pub open spec fn version_text(v: Version) -> Seq<char> {
    if v is V242 {
        "2.4.2"@
    } else {
        "3.0.0"@
    }
}

impl Version {
    /// The version string as the header writes it; the unknown version has
    /// none.
    pub fn text(&self) -> (r: &str)
        requires
            !(self is Unknown),
        ensures
            r@ == version_text(*self),
    {
        match self {
            Version::V242 => "2.4.2",
            Version::V300 => "3.0.0",
            Version::Unknown => "",
        }
    }
}

/// The one-entry-per-line summary of a header, as displayed to the user.
pub open spec fn ifo_summary(v: IfoView) -> Seq<char> {
    "StarDict's dict ifo file\n"@ + "version="@ + version_text(v.version) + "\n"@ + "wordcount="@
        + crate::textutil::dec_str(v.wordcount) + "\n"@ + "idxfilesize="@
        + crate::textutil::dec_str(v.idxfilesize) + "\n"@ + "bookname="@ + v.bookname + "\n"@
        + "sametypesequence="@ + v.sametypesequence + "\n"@
}

/// A line with its trailing carriage return, if any, taken off.
pub open spec fn strip_cr(t: Seq<char>) -> Seq<char> {
    if t.len() > 0 && t.last() == '\r' {
        t.drop_last()
    } else {
        t
    }
}

/// The lines of `s` from position `pos` on: split at newlines, each with a
/// trailing carriage return removed; no trailing empty line.
pub open spec fn split_lines_from(s: Seq<char>, pos: int) -> Seq<Seq<char>>
    decreases s.len() - pos,
    when 0 <= pos <= s.len()
    via split_lines_from_dec
{
    if pos >= s.len() {
        Seq::empty()
    } else {
        match find_char_from(s, '\n', pos) {
            None => seq![strip_cr(s.subrange(pos, s.len() as int))],
            Some(e) => seq![strip_cr(s.subrange(pos, e))] + split_lines_from(s, e + 1),
        }
    }
}

#[via_fn]
proof fn split_lines_from_dec(s: Seq<char>, pos: int) {
    if pos < s.len() {
        lemma_find_char_from(s, '\n', pos);
    }
}

/// The header before any line is read: unknown version, empty strings,
/// zero counts.
pub open spec fn initial_ifo() -> IfoView {
    IfoView {
        version: Version::Unknown,
        bookname: Seq::empty(),
        wordcount: 0,
        synwordcount: 0,
        idxfilesize: 0,
        idxoffsetbits: 0,
        author: Seq::empty(),
        email: Seq::empty(),
        website: Seq::empty(),
        description: Seq::empty(),
        date: Seq::empty(),
        sametypesequence: Seq::empty(),
        dicttype: Seq::empty(),
    }
}

/// What one `key=value` assignment does to the header: known text fields
/// are replaced, known numeric fields are parsed (a value that does not
/// parse fails the whole header), anything else is ignored.
pub open spec fn apply_kv(m: IfoView, key: Seq<char>, val: Seq<char>) -> Option<IfoView> {
    if key == "version"@ {
        Some(
            IfoView {
                version: if val == "2.4.2"@ {
                    Version::V242
                } else if val == "3.0.0"@ {
                    Version::V300
                } else {
                    Version::Unknown
                },
                ..m
            },
        )
    } else if key == "bookname"@ {
        Some(IfoView { bookname: val, ..m })
    } else if key == "wordcount"@ {
        match parse_usize_spec(val) {
            Some(n) => Some(IfoView { wordcount: n, ..m }),
            None => None,
        }
    } else if key == "synwordcount"@ {
        match parse_usize_spec(val) {
            Some(n) => Some(IfoView { synwordcount: n, ..m }),
            None => None,
        }
    } else if key == "idxfilesize"@ {
        match parse_usize_spec(val) {
            Some(n) => Some(IfoView { idxfilesize: n, ..m }),
            None => None,
        }
    } else if key == "idxoffsetbits"@ {
        match parse_usize_spec(val) {
            Some(n) => Some(IfoView { idxoffsetbits: n, ..m }),
            None => None,
        }
    } else if key == "author"@ {
        Some(IfoView { author: val, ..m })
    } else if key == "email"@ {
        Some(IfoView { email: val, ..m })
    } else if key == "website"@ {
        Some(IfoView { website: val, ..m })
    } else if key == "description"@ {
        Some(IfoView { description: val, ..m })
    } else if key == "date"@ {
        Some(IfoView { date: val, ..m })
    } else if key == "sametypesequence"@ {
        Some(IfoView { sametypesequence: val, ..m })
    } else if key == "dicttype"@ {
        Some(IfoView { dicttype: val, ..m })
    } else {
        Some(m)
    }
}

/// What one line does to the header: a line without `=` is skipped, any
/// other splits at its first `=` into key and value.
pub open spec fn ifo_apply_line(m: IfoView, line: Seq<char>) -> Option<IfoView> {
    match find_char_from(line, '=', 0) {
        None => Some(m),
        Some(k) => apply_kv(m, line.subrange(0, k), line.subrange(k + 1, line.len() as int)),
    }
}

/// Fold the lines over the header in order, stopping at the first failure.
pub open spec fn ifo_fold(m: IfoView, lines: Seq<Seq<char>>) -> Option<IfoView>
    decreases lines.len(),
{
    if lines.len() == 0 {
        Some(m)
    } else {
        match ifo_apply_line(m, lines.first()) {
            None => None,
            Some(m2) => ifo_fold(m2, lines.drop_first()),
        }
    }
}

/// What parsing a whole `.ifo` header means.
pub open spec fn parse_ifo(s: Seq<char>) -> Option<IfoView> {
    ifo_fold(initial_ifo(), split_lines_from(s, 0))
}

impl Ifo {
    /// Parse an `.ifo` header from its text, line by line. Fails exactly
    /// when a known numeric field holds a value that does not parse.
    pub fn new(contents: &str) -> (r: Result<Ifo, DictError>)
        ensures
            match r {
                Ok(ifo) => parse_ifo(contents@) == Some(ifo@),
                Err(e) => parse_ifo(contents@) is None && e == DictError::BadIfo,
            },
    {
        let l = contents.unicode_len();
        let mut ifo = Ifo {
            version: Version::Unknown,
            bookname: String::new(),
            wordcount: 0,
            synwordcount: 0,
            idxfilesize: 0,
            idxoffsetbits: 0,
            author: String::new(),
            email: String::new(),
            website: String::new(),
            description: String::new(),
            date: String::new(),
            sametypesequence: String::new(),
            dicttype: String::new(),
        };
        proof {
            assert(ifo@ =~= initial_ifo());
        }
        let mut pos: usize = 0;
        while pos < l
            invariant
                l == contents@.len(),
                pos <= l,
                ifo_fold(ifo@, split_lines_from(contents@, pos as int)) == parse_ifo(contents@),
            decreases l - pos,
        {
            let e = match scan_char(contents, '\n', pos) {
                Some(e) => e,
                None => l,
            };
            proof {
                lemma_find_char_from(contents@, '\n', pos as int);
            }
            let line_end = if e > pos && contents.get_char(e - 1) == '\r' {
                e - 1
            } else {
                e
            };
            let line = contents.substring_char(pos, line_end);
            let next = if e < l {
                e + 1
            } else {
                l
            };
            proof {
                if e < l {
                    assert(strip_cr(contents@.subrange(pos as int, e as int)) =~= line@);
                    assert(split_lines_from(contents@, pos as int) == seq![line@]
                        + split_lines_from(contents@, e + 1));
                } else {
                    assert(strip_cr(contents@.subrange(pos as int, l as int)) =~= line@);
                    assert(split_lines_from(contents@, l as int) =~= Seq::<Seq<char>>::empty());
                    assert(split_lines_from(contents@, pos as int) =~= seq![line@]
                        + split_lines_from(contents@, next as int));
                }
                assert((seq![line@] + split_lines_from(contents@, next as int)).first() == line@);
                assert((seq![line@] + split_lines_from(contents@, next as int)).drop_first()
                    =~= split_lines_from(contents@, next as int));
            }
            let ghost pre_view = ifo@;
            match scan_char(line, '=', 0) {
                None => {},
                Some(k) => {
                    proof {
                        lemma_find_char_from(line@, '=', 0);
                    }
                    let key = line.substring_char(0, k);
                    let ll = line.unicode_len();
                    let val = line.substring_char(k + 1, ll);
                    if str_eq(key, "version") {
                        ifo.version = if str_eq(val, "2.4.2") {
                            Version::V242
                        } else if str_eq(val, "3.0.0") {
                            Version::V300
                        } else {
                            Version::Unknown
                        };
                    } else if str_eq(key, "bookname") {
                        ifo.bookname = val.to_owned();
                    } else if str_eq(key, "wordcount") {
                        match parse_usize(val) {
                            Some(n) => {
                                ifo.wordcount = n;
                            },
                            None => {
                                proof {
                                    assert(ifo_apply_line(pre_view, line@) is None);
                                }
                                return Err(DictError::BadIfo);
                            },
                        }
                    } else if str_eq(key, "synwordcount") {
                        match parse_usize(val) {
                            Some(n) => {
                                ifo.synwordcount = n;
                            },
                            None => {
                                proof {
                                    assert(ifo_apply_line(pre_view, line@) is None);
                                }
                                return Err(DictError::BadIfo);
                            },
                        }
                    } else if str_eq(key, "idxfilesize") {
                        match parse_usize(val) {
                            Some(n) => {
                                ifo.idxfilesize = n;
                            },
                            None => {
                                proof {
                                    assert(ifo_apply_line(pre_view, line@) is None);
                                }
                                return Err(DictError::BadIfo);
                            },
                        }
                    } else if str_eq(key, "idxoffsetbits") {
                        match parse_usize(val) {
                            Some(n) => {
                                ifo.idxoffsetbits = n;
                            },
                            None => {
                                proof {
                                    assert(ifo_apply_line(pre_view, line@) is None);
                                }
                                return Err(DictError::BadIfo);
                            },
                        }
                    } else if str_eq(key, "author") {
                        ifo.author = val.to_owned();
                    } else if str_eq(key, "email") {
                        ifo.email = val.to_owned();
                    } else if str_eq(key, "website") {
                        ifo.website = val.to_owned();
                    } else if str_eq(key, "description") {
                        ifo.description = val.to_owned();
                    } else if str_eq(key, "date") {
                        ifo.date = val.to_owned();
                    } else if str_eq(key, "sametypesequence") {
                        ifo.sametypesequence = val.to_owned();
                    } else if str_eq(key, "dicttype") {
                        ifo.dicttype = val.to_owned();
                    }
                },
            }
            proof {
                assert(ifo_apply_line(pre_view, line@) == Some(ifo@)) by {
                    match find_char_from(line@, '=', 0) {
                        None => {
                            assert(ifo@ =~= pre_view);
                        },
                        Some(k) => {
                            assert(ifo@ =~= apply_kv(
                                pre_view,
                                line@.subrange(0, k),
                                line@.subrange(k + 1, line@.len() as int),
                            )->0);
                        },
                    }
                }
            }
            pos = next;
        }
        proof {
            assert(split_lines_from(contents@, l as int) =~= Seq::<Seq<char>>::empty());
        }
        Ok(ifo)
    }

    /// Render the header's summary, one field per line.
    pub fn summary(&self) -> (r: String)
        requires
            !(self.version is Unknown),
        ensures
            r@ == ifo_summary(self@),
    {
        let mut out = String::new();
        out.append("StarDict's dict ifo file\n");
        out.append("version=");
        out.append(self.version.text());
        out.append("\n");
        out.append("wordcount=");
        let wc = crate::textutil::usize_to_string(self.wordcount);
        out.append(wc.as_str());
        out.append("\n");
        out.append("idxfilesize=");
        let sz = crate::textutil::usize_to_string(self.idxfilesize);
        out.append(sz.as_str());
        out.append("\n");
        out.append("bookname=");
        out.append(self.bookname.as_str());
        out.append("\n");
        out.append("sametypesequence=");
        out.append(self.sametypesequence.as_str());
        out.append("\n");
        proof {
            assert(out@ =~= ifo_summary(self@));
        }
        out
    }
}

/// First position of byte `c` in `s` at or after `i`.
pub open spec fn find_byte_from(s: Seq<u8>, c: u8, i: int) -> Option<int>
    decreases s.len() - i,
    when 0 <= i <= s.len()
{
    if i >= s.len() {
        None
    } else if s[i] == c {
        Some(i)
    } else {
        find_byte_from(s, c, i + 1)
    }
}

/// What a successful or failed byte search means, position by position.
pub proof fn lemma_find_byte_from(s: Seq<u8>, c: u8, i: int)
    requires
        0 <= i <= s.len(),
    ensures
        match find_byte_from(s, c, i) {
            Some(e) => i <= e < s.len() && s[e] == c && forall|j: int| i <= j < e ==> s[j] != c,
            None => forall|j: int| i <= j < s.len() ==> s[j] != c,
        },
    decreases s.len() - i,
{
    if i < s.len() && s[i] != c {
        lemma_find_byte_from(s, c, i + 1);
    }
}

/// Skipping over positions without `c` does not change what is found.
proof fn lemma_find_byte_skip(s: Seq<u8>, c: u8, from: int, to: int)
    requires
        0 <= from <= to <= s.len(),
        forall|j: int| from <= j < to ==> s[j] != c,
    ensures
        find_byte_from(s, c, from) == find_byte_from(s, c, to),
    decreases to - from,
{
    if from < to {
        lemma_find_byte_skip(s, c, from + 1, to);
    }
}

/// Find byte `c` in `bytes` at or after position `from`, executably.
fn scan_byte(bytes: &Vec<u8>, c: u8, from: usize) -> (r: Option<usize>)
    requires
        from <= bytes@.len(),
    ensures
        match r {
            Some(e) => Some(e as int),
            None => None::<int>,
        } == find_byte_from(bytes@, c, from as int),
{
    let n = bytes.len();
    let mut i: usize = from;
    while i < n
        invariant
            n == bytes@.len(),
            from <= i <= n,
            forall|j: int| from <= j < i ==> bytes@[j] != c,
        decreases n - i,
    {
        if bytes[i] == c {
            proof {
                lemma_find_byte_skip(bytes@, c, from as int, i as int);
            }
            return Some(i);
        }
        i += 1;
    }
    proof {
        lemma_find_byte_skip(bytes@, c, from as int, n as int);
    }
    None
}

/// The value of a big-endian byte string.
pub open spec fn be_val(s: Seq<u8>) -> nat
    decreases s.len(),
{
    if s.len() == 0 {
        0
    } else {
        be_val(s.drop_last()) * 256 + s.last() as nat
    }
}

/// Powers of 256.
pub open spec fn pow256(n: nat) -> nat
    decreases n,
{
    if n == 0 {
        1
    } else {
        256 * pow256((n - 1) as nat)
    }
}

/// A big-endian byte string's value is bounded by its length's power.
proof fn lemma_be_val_bound(s: Seq<u8>)
    ensures
        be_val(s) < pow256(s.len()),
    decreases s.len(),
{
    if s.len() > 0 {
        lemma_be_val_bound(s.drop_last());
        assert(be_val(s.drop_last()) * 256 <= (pow256((s.len() - 1) as nat) - 1) * 256);
    }
}

/// Up to eight big-endian bytes fit a 64-bit value.
proof fn lemma_pow256_le_8(n: nat)
    requires
        n <= 8,
    ensures
        pow256(n) <= 0x1_0000_0000_0000_0000,
    decreases n,
{
    reveal_with_fuel(pow256, 9);
    if n < 8 {
        lemma_pow256_le_8_mono(n);
    }
}

/// Powers of 256 grow with the exponent.
proof fn lemma_pow256_le_8_mono(n: nat)
    requires
        n <= 8,
    ensures
        pow256(n) <= pow256(8),
    decreases 8 - n,
{
    if n < 8 {
        lemma_pow256_le_8_mono(n + 1);
        assert(pow256(n + 1) == 256 * pow256(n));
        assert(pow256(n) >= 1) by {
            lemma_pow256_pos(n);
        }
    }
}

/// Powers of 256 are positive.
proof fn lemma_pow256_pos(n: nat)
    ensures
        pow256(n) >= 1,
    decreases n,
{
    if n > 0 {
        lemma_pow256_pos((n - 1) as nat);
    }
}

/// Read `w` big-endian bytes starting at `start`.
fn read_be(bytes: &Vec<u8>, start: usize, w: usize) -> (r: u64)
    requires
        w <= 8,
        start + w <= bytes@.len(),
    ensures
        r == be_val(bytes@.subrange(start as int, start + w)),
{
    let n = bytes.len();
    let mut acc: u64 = 0;
    let mut k: usize = 0;
    proof {
        assert(bytes@.subrange(start as int, start as int) =~= Seq::<u8>::empty());
        assert(start + w <= n);
    }
    while k < w
        invariant
            w <= 8,
            start + w <= bytes@.len(),
            start + w <= usize::MAX,
            k <= w,
            acc == be_val(bytes@.subrange(start as int, start + k)),
        decreases w - k,
    {
        proof {
            let sub = bytes@.subrange(start as int, start + k + 1);
            assert(sub.drop_last() =~= bytes@.subrange(start as int, start + k));
            assert(sub.last() == bytes@[start + k]);
            lemma_be_val_bound(sub.drop_last());
            lemma_pow256_le_8((k + 1) as nat);
            lemma_pow256_le_8_mono(k as nat);
            assert(acc * 256 <= (pow256(k as nat) - 1) * 256);
        }
        acc = acc * 256 + (bytes[start + k] as u64);
        k += 1;
    }
    acc
}

/// One parsed index entry: the decoded word (replacement characters
/// removed) with its payload offset and size.
pub open spec fn parse_idx_from(s: Seq<u8>, pos: int, w: nat) -> Option<
    Seq<(Seq<char>, nat, nat)>,
>
    decreases s.len() - pos,
    when 0 <= pos <= s.len() && w >= 1
    via parse_idx_from_dec
{
    if pos >= s.len() {
        Some(Seq::empty())
    } else {
        let wend = match find_byte_from(s, 0u8, pos) {
            Some(e) => e,
            None => s.len() as int,
        };
        let word = crate::textutil::cleaned(crate::textutil::lossy_of(s.subrange(pos, wend)));
        let numstart = if wend < s.len() {
            wend + 1
        } else {
            wend
        };
        if numstart + 2 * w > s.len() {
            None
        } else {
            let off = be_val(s.subrange(numstart, numstart + w));
            let sz = be_val(s.subrange(numstart + w, numstart + 2 * w));
            if off > usize::MAX || sz > usize::MAX {
                None
            } else {
                match parse_idx_from(s, numstart + 2 * w, w) {
                    None => None,
                    Some(t) => Some(
                        if word.len() == 0 {
                            t
                        } else {
                            seq![(word, off, sz)] + t
                        },
                    ),
                }
            }
        }
    }
}

#[via_fn]
proof fn parse_idx_from_dec(s: Seq<u8>, pos: int, w: nat) {
    if pos < s.len() {
        lemma_find_byte_from(s, 0u8, pos);
    }
}

/// The word index of a dictionary: each known word with the offset and
/// size of its payload.
#[derive(Debug)]
pub struct Idx {
    pub items: Vec<(String, usize, usize)>,
}

/// The mathematical content of stored index entries.
pub open spec fn entries_view(items: Seq<(String, usize, usize)>) -> Seq<(Seq<char>, nat, nat)> {
    Seq::new(items.len(), |i: int| (items[i].0@, items[i].1 as nat, items[i].2 as nat))
}

impl Idx {
    /// The mathematical content of this index.
    pub open spec fn view(self) -> Seq<(Seq<char>, nat, nat)> {
        entries_view(self.items@)
    }

    /// The entry width the format version prescribes.
    pub open spec fn spec_width(version: Version) -> nat {
        if version is V300 {
            8
        } else {
            4
        }
    }

    /// Parse a whole `.idx` byte string: words terminated by a zero byte,
    /// each followed by a big-endian offset and size whose width the
    /// version fixes; words that decode to nothing are dropped. Fails on a
    /// truncated entry, an out-of-range number, or an unknown version.
    pub fn new(bytes: &Vec<u8>, version: Version) -> (r: Result<Idx, DictError>)
        ensures
            match version {
                Version::Unknown => r matches Err(e) && e == DictError::BadVersion,
                _ => {
                    let w = Idx::spec_width(version);
                    match r {
                        Ok(idx) => parse_idx_from(bytes@, 0, w) == Some(idx.view()),
                        Err(e) => parse_idx_from(bytes@, 0, w) is None && e == DictError::BadIdx,
                    }
                },
            },
    {
        let w: usize = match version {
            Version::V242 => 4,
            Version::V300 => 8,
            Version::Unknown => {
                return Err(DictError::BadVersion);
            },
        };
        let n = bytes.len();
        let mut items: Vec<(String, usize, usize)> = Vec::new();
        let mut pos: usize = 0;
        proof {
            assert(entries_view(items@) =~~= Seq::<(Seq<char>, nat, nat)>::empty());
        }
        while pos < n
            invariant
                n == bytes@.len(),
                pos <= n,
                w == 4 || w == 8,
                !(version is Unknown),
                w as nat == Idx::spec_width(version),
                match parse_idx_from(bytes@, pos as int, w as nat) {
                    None => parse_idx_from(bytes@, 0, w as nat) is None,
                    Some(t) => parse_idx_from(bytes@, 0, w as nat) == Some(
                        entries_view(items@) + t,
                    ),
                },
            decreases n - pos,
        {
            let wend = match scan_byte(bytes, 0, pos) {
                Some(e) => e,
                None => n,
            };
            proof {
                lemma_find_byte_from(bytes@, 0u8, pos as int);
            }
            let mut wordbytes: Vec<u8> = Vec::new();
            let mut t: usize = pos;
            while t < wend
                invariant
                    pos <= t <= wend <= bytes@.len(),
                    wordbytes@ == bytes@.subrange(pos as int, t as int),
                decreases wend - t,
            {
                wordbytes.push(bytes[t]);
                proof {
                    assert(wordbytes@ =~= bytes@.subrange(pos as int, t + 1));
                }
                t += 1;
            }
            let decoded = crate::textutil::utf8_lossy(&wordbytes);
            let word = crate::textutil::clean_word(decoded.as_str());
            let numstart = if wend < n {
                wend + 1
            } else {
                wend
            };
            if n - numstart < 2 * w {
                return Err(DictError::BadIdx);
            }
            let off64 = read_be(bytes, numstart, w);
            let sz64 = read_be(bytes, numstart + w, w);
            if off64 > usize::MAX as u64 || sz64 > usize::MAX as u64 {
                return Err(DictError::BadIdx);
            }
            let off = off64 as usize;
            let sz = sz64 as usize;
            let ghost old_items = items@;
            if word.unicode_len() > 0 {
                items.push((word, off, sz));
            }
            proof {
                let gpos = pos as int;
                let gnum = numstart as int;
                let gw = w as nat;
                let wordv = crate::textutil::cleaned(
                    crate::textutil::lossy_of(bytes@.subrange(gpos, wend as int)),
                );
                assert(bytes@.subrange(gnum, gnum + gw) == bytes@.subrange(
                    gnum,
                    gnum + w,
                ));
                match parse_idx_from(bytes@, gnum + 2 * gw, gw) {
                    None => {
                        assert(parse_idx_from(bytes@, gpos, gw) is None);
                    },
                    Some(t2) => {
                        if wordv.len() == 0 {
                            assert(entries_view(items@) =~~= entries_view(old_items));
                            assert(parse_idx_from(bytes@, gpos, gw) == Some(t2));
                        } else {
                            assert(entries_view(items@) =~~= entries_view(old_items).push(
                                (wordv, off as nat, sz as nat),
                            ));
                            assert(parse_idx_from(bytes@, gpos, gw) == Some(
                                seq![(wordv, off as nat, sz as nat)] + t2,
                            ));
                            assert(entries_view(old_items) + (seq![(wordv, off as nat, sz as nat)]
                                + t2) =~~= entries_view(items@) + t2);
                        }
                    },
                }
            }
            pos = numstart + 2 * w;
        }
        proof {
            assert(parse_idx_from(bytes@, pos as int, w as nat) == Some(
                Seq::<(Seq<char>, nat, nat)>::empty(),
            ));
            assert(entries_view(items@) + Seq::<(Seq<char>, nat, nat)>::empty() =~~= entries_view(
                items@,
            ));
        }
        Ok(Idx { items })
    }
}

/// What decompressing a gzip stream yields: a function of the compressed
/// bytes alone.
pub uninterp spec fn gunzip_of(s: Seq<u8>) -> Seq<u8>;

/// Whether a byte string is a gzip stream the decoder accepts; like the
/// decoded bytes, this depends on the compressed bytes alone.
pub uninterp spec fn gunzip_ok(s: Seq<u8>) -> bool;

/// Relies on flate2's GzDecoder, reading the whole stream into memory:
/// whether decoding succeeds, and what it yields when it does, are pure
/// functions of the compressed bytes.
#[verifier::external_body]
fn gunzip(data: &Vec<u8>) -> (r: Option<Vec<u8>>)
    ensures
        r is Some <==> gunzip_ok(data@),
        r matches Some(v) ==> v@ == gunzip_of(data@),
{
    let mut decoder = flate2::read::GzDecoder::new(data.as_slice());
    let mut out: Vec<u8> = Vec::new();
    match std::io::Read::read_to_end(&mut decoder, &mut out) {
        Ok(_) => Some(out),
        Err(_) => None,
    }
}

/// The dictionary payload, fully loaded.
pub struct Dict {
    pub contents: Vec<u8>,
}

impl Dict {
    /// Wrap an already loaded (plain-text) payload.
    pub fn new(contents: Vec<u8>) -> (d: Dict)
        ensures
            d.contents@ == contents@,
    {
        Dict { contents }
    }

    /// Decompress a `.dz` payload; fails exactly when the bytes are not a
    /// gzip stream the decoder accepts.
    pub fn from_dz(compressed: &Vec<u8>) -> (r: Result<Dict, DictError>)
        ensures
            match r {
                Ok(d) => gunzip_ok(compressed@) && d.contents@ == gunzip_of(compressed@),
                Err(e) => e == DictError::BadGzip && !gunzip_ok(compressed@),
            },
    {
        match gunzip(compressed) {
            Some(v) => Ok(Dict { contents: v }),
            None => Err(DictError::BadGzip),
        }
    }

    /// The `size` payload bytes starting at `offset`; fails exactly when
    /// they reach outside the payload.
    pub fn get(&self, offset: usize, size: usize) -> (r: Result<Vec<u8>, DictError>)
        ensures
            match r {
                Ok(v) => offset + size <= self.contents@.len() && v@ == self.contents@.subrange(
                    offset as int,
                    offset + size,
                ),
                Err(e) => e == DictError::NotFound && offset + size > self.contents@.len(),
            },
    {
        let n = self.contents.len();
        if size > n || offset > n - size {
            return Err(DictError::NotFound);
        }
        let mut out: Vec<u8> = Vec::new();
        let mut i: usize = 0;
        while i < size
            invariant
                offset + size <= self.contents@.len(),
                offset + size <= usize::MAX,
                i <= size,
                out@ == self.contents@.subrange(offset as int, offset + i),
            decreases size - i,
        {
            out.push(self.contents[offset + i]);
            proof {
                assert(out@ =~= self.contents@.subrange(offset as int, offset + i + 1));
            }
            i += 1;
        }
        Ok(out)
    }
}

/// An offline dictionary: header, word index and payload.
pub struct StarDict {
    pub ifo: Ifo,
    pub idx: Idx,
    pub dict: Dict,
}

/// Index entries in strictly ascending case-folded order, as a well-built
/// dictionary ships them.
pub open spec fn sorted_folded(items: Seq<(String, usize, usize)>) -> bool {
    forall|i: int, j: int|
        0 <= i < j < items.len() ==> lex_cmp(
            lower_of(#[trigger] items[i].0@),
            lower_of(#[trigger] items[j].0@),
        ) < 0
}

impl StarDict {
    /// Whether index entry `i` is a case-folded match for `q`.
    pub open spec fn entry_matches(self, i: int, q: Seq<char>) -> bool {
        lower_of(self.idx.items@[i].0@) == lower_of(q)
    }

    /// Whether index entry `i` points inside the payload.
    pub open spec fn entry_in_range(self, i: int) -> bool {
        self.idx.items@[i].1 + self.idx.items@[i].2 <= self.dict.contents@.len()
    }

    /// The payload bytes index entry `i` points at.
    pub open spec fn payload_of(self, i: int) -> Seq<u8> {
        self.dict.contents@.subrange(
            self.idx.items@[i].1 as int,
            self.idx.items@[i].1 + self.idx.items@[i].2,
        )
    }

    /// Build a dictionary from the text of its `.ifo` header, the bytes of
    /// its `.idx` index, and its gzip-compressed `.dz` payload: it is built
    /// exactly when the header parses to a known version, the index parses
    /// at that version's width, and the payload decompresses; each error
    /// names the first stage that failed.
    pub fn dz(ifo_text: &str, idx_bytes: &Vec<u8>, dz_bytes: &Vec<u8>) -> (r: Result<
        StarDict,
        DictError,
    >)
        ensures
            match r {
                Ok(sd) => {
                    &&& parse_ifo(ifo_text@) == Some(sd.ifo@)
                    &&& !(sd.ifo@.version is Unknown)
                    &&& parse_idx_from(idx_bytes@, 0, Idx::spec_width(sd.ifo.version)) == Some(
                        sd.idx.view(),
                    )
                    &&& gunzip_ok(dz_bytes@)
                    &&& sd.dict.contents@ == gunzip_of(dz_bytes@)
                },
                Err(e) => {
                    ||| (e == DictError::BadIfo && parse_ifo(ifo_text@) is None)
                    ||| (e == DictError::BadVersion && (parse_ifo(ifo_text@) matches Some(m)
                        && m.version is Unknown))
                    ||| (e == DictError::BadIdx && (parse_ifo(ifo_text@) matches Some(m) && !(
                    m.version is Unknown) && parse_idx_from(
                        idx_bytes@,
                        0,
                        Idx::spec_width(m.version),
                    ) is None))
                    ||| (e == DictError::BadGzip && !gunzip_ok(dz_bytes@))
                },
            },
    {
        let ifo = Ifo::new(ifo_text)?;
        if let Version::Unknown = ifo.version {
            return Err(DictError::BadVersion);
        }
        let idx = match Idx::new(idx_bytes, ifo.version) {
            Ok(idx) => idx,
            Err(_) => {
                return Err(DictError::BadIdx);
            },
        };
        let dict = Dict::from_dz(dz_bytes)?;
        Ok(StarDict { ifo, idx, dict })
    }

    /// Build a dictionary from the text of its `.ifo` header, the bytes of
    /// its `.idx` index, and its plain `.dict` payload.
    pub fn dict(ifo_text: &str, idx_bytes: &Vec<u8>, dict_bytes: Vec<u8>) -> (r: Result<
        StarDict,
        DictError,
    >)
        ensures
            match r {
                Ok(sd) => {
                    &&& parse_ifo(ifo_text@) == Some(sd.ifo@)
                    &&& !(sd.ifo@.version is Unknown)
                    &&& parse_idx_from(idx_bytes@, 0, Idx::spec_width(sd.ifo.version)) == Some(
                        sd.idx.view(),
                    )
                    &&& sd.dict.contents@ == dict_bytes@
                },
                Err(e) => {
                    ||| (e == DictError::BadIfo && parse_ifo(ifo_text@) is None)
                    ||| (e == DictError::BadVersion && (parse_ifo(ifo_text@) matches Some(m)
                        && m.version is Unknown))
                    ||| (e == DictError::BadIdx && (parse_ifo(ifo_text@) matches Some(m) && !(
                    m.version is Unknown) && parse_idx_from(
                        idx_bytes@,
                        0,
                        Idx::spec_width(m.version),
                    ) is None))
                },
            },
    {
        let ifo = Ifo::new(ifo_text)?;
        if let Version::Unknown = ifo.version {
            return Err(DictError::BadVersion);
        }
        let idx = match Idx::new(idx_bytes, ifo.version) {
            Ok(idx) => idx,
            Err(_) => {
                return Err(DictError::BadIdx);
            },
        };
        Ok(StarDict { ifo, idx, dict: Dict::new(dict_bytes) })
    }

    /// The dictionary's display name, from its header.
    pub fn dict_name(&self) -> (r: &str)
        ensures
            r@ == self.ifo.bookname@,
    {
        self.ifo.bookname.as_str()
    }

    /// Case-folded lookup by binary search over the index. A returned
    /// payload always belongs to an entry matching the word. When the
    /// index is strictly sorted by case-folded headword — as a well-built
    /// dictionary is — an empty answer means every matching entry (if any)
    /// points outside the payload.
    pub fn exact_lookup(&self, word: &str) -> (r: Option<Vec<u8>>)
        ensures
            r matches Some(v) ==> exists|i: int|
                0 <= i < self.idx.items@.len() && self.entry_matches(i, word@)
                    && self.entry_in_range(i) && v@ == self.payload_of(i),
            (sorted_folded(self.idx.items@) && r is None) ==> forall|i: int|
                0 <= i < self.idx.items@.len() && self.entry_matches(i, word@)
                    ==> !self.entry_in_range(i),
    {
        let folded = to_lower(word);
        let n = self.idx.items.len();
        let mut lo: usize = 0;
        let mut hi: usize = n;
        while lo < hi
            invariant
                n == self.idx.items@.len(),
                folded@ == lower_of(word@),
                lo <= hi <= n,
                sorted_folded(self.idx.items@) ==> forall|i: int|
                    0 <= i < lo ==> lex_cmp(
                        lower_of(#[trigger] self.idx.items@[i].0@),
                        lower_of(word@),
                    ) < 0,
                sorted_folded(self.idx.items@) ==> forall|i: int|
                    hi <= i < n ==> lex_cmp(
                        lower_of(#[trigger] self.idx.items@[i].0@),
                        lower_of(word@),
                    ) > 0,
            decreases hi - lo,
        {
            let mid = lo + (hi - lo) / 2;
            let probe = to_lower(self.idx.items[mid].0.as_str());
            let c = str_lex_cmp(probe.as_str(), folded.as_str());
            let ghost pl = lower_of(self.idx.items@[mid as int].0@);
            let ghost ql = lower_of(word@);
            if c == 0 {
                proof {
                    assert(folded@ == ql);
                    assert(probe@ == pl);
                    assert(lex_cmp(pl, ql) == 0);
                    lemma_lex_cmp_eq(pl, ql);
                }
                let off = self.idx.items[mid].1;
                let sz = self.idx.items[mid].2;
                match self.dict.get(off, sz) {
                    Ok(v) => {
                        proof {
                            assert(self.entry_matches(mid as int, word@) && self.entry_in_range(
                                mid as int,
                            ) && v@ == self.payload_of(mid as int));
                        }
                        return Some(v);
                    },
                    Err(_) => {
                        proof {
                            if sorted_folded(self.idx.items@) {
                                assert forall|i: int|
                                    0 <= i < self.idx.items@.len() && self.entry_matches(
                                        i,
                                        word@,
                                    ) implies !self.entry_in_range(i) by {
                                    lemma_lex_cmp_eq(lower_of(self.idx.items@[i].0@), pl);
                                    lemma_lex_cmp_eq(pl, lower_of(self.idx.items@[i].0@));
                                }
                            }
                        }
                        return None;
                    },
                }
            } else if c < 0 {
                proof {
                    if sorted_folded(self.idx.items@) {
                        assert forall|i: int|
                            0 <= i < mid + 1 implies lex_cmp(
                            lower_of(#[trigger] self.idx.items@[i].0@),
                            ql,
                        ) < 0 by {
                            if i < mid as int {
                                lemma_lex_cmp_trans(lower_of(self.idx.items@[i].0@), pl, ql);
                            }
                        }
                    }
                }
                lo = mid + 1;
            } else {
                proof {
                    if sorted_folded(self.idx.items@) {
                        assert forall|i: int|
                            mid <= i < n implies lex_cmp(
                            lower_of(#[trigger] self.idx.items@[i].0@),
                            ql,
                        ) > 0 by {
                            lemma_lex_cmp_antisym(pl, ql);
                            if i > mid as int {
                                lemma_lex_cmp_trans(ql, pl, lower_of(self.idx.items@[i].0@));
                                lemma_lex_cmp_antisym(ql, lower_of(self.idx.items@[i].0@));
                            }
                        }
                    }
                }
                hi = mid;
            }
        }
        proof {
            if sorted_folded(self.idx.items@) {
                assert forall|i: int|
                    0 <= i < self.idx.items@.len() && self.entry_matches(i, word@)
                        implies !self.entry_in_range(i) by {
                    lemma_lex_cmp_eq(lower_of(self.idx.items@[i].0@), lower_of(word@));
                }
            }
        }
        None
    }
}

/// A word entry of a dictionary.
pub struct Entry {
    pub word: String,
}

/// A word entry paired with the name of the dictionary it came from, as
/// fuzzy-search selection lists show them.
pub struct EntryWrapper {
    pub dict_name: String,
    pub entry: Entry,
}

impl EntryWrapper {
    /// The display line: the word, a space, the dictionary's name and a
    /// newline.
    pub fn line(&self) -> (r: String)
        ensures
            r@ == self.entry.word@ + " "@ + self.dict_name@ + "\n"@,
    {
        let mut out = self.entry.word.clone();
        out.append(" ");
        out.append(self.dict_name.as_str());
        out.append("\n");
        proof {
            assert(out@ =~= self.entry.word@ + " "@ + self.dict_name@ + "\n"@);
        }
        out
    }
}

} // verus!
