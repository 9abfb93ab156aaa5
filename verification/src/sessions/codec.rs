//! The on-disk session-log codec: artifact naming, framing, the physical
//! header contract, and the committed-record rules a copy relies on.
//!
//! A session log is a concatenation of independent Zstandard frames (the
//! header is frame 0, every later durable batch its own frame), or plain
//! JSONL. A session's format generation is named by its artifact file
//! (`session.jsonl` = v0, `session.vN.jsonl` = vN, plus `.zstd`), and DSH
//! requires the header's own `version` to agree.

use vstd::prelude::*;
use vstd::utf8::{decode_utf8, encode_utf8, valid_utf8};
use crate::decimal::{all_digits, dec_digits, dec_value, decimal_chars, lemma_dec_digits, parse_canonical};
use crate::json::{
    fields_view, json_object_fields, json_row_facts, parse_json_object, parse_json_row, JsonScalar,
    JsonScalarView, RowFacts, RowFactsView,
};
use crate::text::{
    chars_eq, chars_of, concat_chars, ends_with, ends_with_exec, is_blank, is_blank_exec, slice_range, starts_with,
    starts_with_exec, string_of, views,
};

verus! {

/* ------------------------------ naming ------------------------------ */

/// The newest format generation this build reads.
pub const MAX_READABLE_GENERATION: u64 = 3;

/// The generations whose fork marker (`seedLength`) lives in the header.
pub const HEADER_FORK_MAX_GENERATION: u64 = 1;

/// The largest generation DSH's parser accepts (`Number.isSafeInteger`).
pub const MAX_SAFE_GENERATION: u64 = 9007199254740991;

/// What a log artifact looks like: plaintext JSONL or concatenated zstd frames.
#[derive(PartialEq, Eq, Structural, Clone, Copy, Debug)]
pub enum LogEncoding {
    Zstd,
    Plain,
}

pub open spec fn session_word() -> Seq<char> {
    seq!['s', 'e', 's', 's', 'i', 'o', 'n']
}

pub open spec fn jsonl_suffix() -> Seq<char> {
    seq!['.', 'j', 's', 'o', 'n', 'l']
}

pub open spec fn zstd_suffix() -> Seq<char> {
    seq!['.', 'z', 's', 't', 'd']
}

/// `session.v`, the prefix of every generation after the first.
pub open spec fn versioned_prefix() -> Seq<char> {
    session_word() + seq!['.', 'v']
}

/// DSH's canonical artifact basename for a generation and encoding.
pub open spec fn generation_filename_spec(generation: nat, encoding: LogEncoding) -> Seq<char> {
    let base = if generation == 0 {
        session_word() + jsonl_suffix()
    } else {
        versioned_prefix() + dec_digits(generation) + jsonl_suffix()
    };
    if encoding == LogEncoding::Zstd {
        base + zstd_suffix()
    } else {
        base
    }
}

/// The digits of a `session.v<digits>.jsonl` base name, if it has that shape.
pub open spec fn versioned_digits(base: Seq<char>) -> Option<Seq<char>> {
    let p = versioned_prefix().len() as int;
    let s = jsonl_suffix().len() as int;
    if base.len() >= p + s && starts_with(base, versioned_prefix()) && ends_with(base, jsonl_suffix()) {
        Some(base.subrange(p, base.len() - s))
    } else {
        None
    }
}

/// The generation a canonical artifact name names for one encoding.
/// Temporary, uppercase, leading-zero and `.v0` names, and names carrying the
/// other encoding's suffix, name none.
pub open spec fn generation_of_filename_spec(name: Seq<char>, encoding: LogEncoding) -> Option<nat> {
    let base = if encoding == LogEncoding::Zstd {
        if ends_with(name, zstd_suffix()) {
            Some(name.take(name.len() - zstd_suffix().len()))
        } else {
            None
        }
    } else {
        Some(name)
    };
    match base {
        None => None,
        Some(b) => if b == session_word() + jsonl_suffix() {
            Some(0)
        } else {
            match versioned_digits(b) {
                Some(d) => if d.len() > 0 && d[0] != '0' && all_digits(d) && dec_value(d)
                    <= MAX_SAFE_GENERATION {
                    Some(dec_value(d))
                } else {
                    None
                },
                None => None,
            }
        },
    }
}

fn session_jsonl_chars() -> (r: Vec<char>)
    ensures
        r@ == session_word() + jsonl_suffix(),
{
    let r = vec!['s', 'e', 's', 's', 'i', 'o', 'n', '.', 'j', 's', 'o', 'n', 'l'];
    assert(r@ =~= session_word() + jsonl_suffix());
    r
}

fn versioned_prefix_chars() -> (r: Vec<char>)
    ensures
        r@ == versioned_prefix(),
{
    let r = vec!['s', 'e', 's', 's', 'i', 'o', 'n', '.', 'v'];
    assert(r@ =~= versioned_prefix());
    r
}

fn jsonl_chars() -> (r: Vec<char>)
    ensures
        r@ == jsonl_suffix(),
{
    let r = vec!['.', 'j', 's', 'o', 'n', 'l'];
    assert(r@ =~= jsonl_suffix());
    r
}

fn zstd_chars() -> (r: Vec<char>)
    ensures
        r@ == zstd_suffix(),
{
    let r = vec!['.', 'z', 's', 't', 'd'];
    assert(r@ =~= zstd_suffix());
    r
}

/// The canonical artifact basename for one generation and physical encoding:
/// generation 0 keeps `session.jsonl`, every later one carries `.vN` before
/// `.jsonl`, and a zstd backend appends `.zstd`.
pub fn generation_filename(generation: u64, encoding: LogEncoding) -> (r: String)
    ensures
        r@ == generation_filename_spec(generation as nat, encoding),
{
    let base = if generation == 0 {
        session_jsonl_chars()
    } else {
        let a = concat_chars(&versioned_prefix_chars(), &decimal_chars(generation));
        concat_chars(&a, &jsonl_chars())
    };
    if encoding == LogEncoding::Zstd {
        string_of(&concat_chars(&base, &zstd_chars()))
    } else {
        string_of(&base)
    }
}

/// The generation a canonical artifact basename names for one encoding, or
/// `None` for a name DSH ignores when it scans a session directory.
pub fn generation_of_filename(name: &str, encoding: LogEncoding) -> (r: Option<u64>)
    ensures
        match r {
            Some(g) => generation_of_filename_spec(name@, encoding) == Some(g as nat),
            None => generation_of_filename_spec(name@, encoding).is_none(),
        },
{
    let n = chars_of(name);
    let base = if encoding == LogEncoding::Zstd {
        let z = zstd_chars();
        if !ends_with_exec(&n, &z) {
            return None;
        }
        crate::text::slice_prefix(&n, n.len() - z.len())
    } else {
        slice_range(&n, 0, n.len())
    };
    assert(n@.subrange(0, n@.len() as int) =~= n@);
    if crate::text::chars_eq(&base, &session_jsonl_chars()) {
        return Some(0);
    }
    let p = versioned_prefix_chars();
    let s = jsonl_chars();
    if base.len() < p.len() + s.len() || !starts_with_exec(&base, &p) || !ends_with_exec(&base, &s) {
        return None;
    }
    let digits = slice_range(&base, p.len(), base.len() - s.len());
    if digits.len() == 0 || digits[0] == '0' {
        return None;
    }
    parse_canonical(&digits, MAX_SAFE_GENERATION)
}

/// Every generation DSH can name reads back from its own filename, in
/// either encoding.
pub proof fn lemma_generation_filename_round_trip(generation: nat, encoding: LogEncoding)
    requires
        generation <= MAX_SAFE_GENERATION,
    ensures
        generation_of_filename_spec(generation_filename_spec(generation, encoding), encoding)
            == Some(generation),
{
    let name = generation_filename_spec(generation, encoding);
    let base = if generation == 0 {
        session_word() + jsonl_suffix()
    } else {
        versioned_prefix() + dec_digits(generation) + jsonl_suffix()
    };
    if encoding == LogEncoding::Zstd {
        assert(name.take(name.len() - zstd_suffix().len()) =~= base);
        assert(name.skip(name.len() - zstd_suffix().len()) =~= zstd_suffix());
    }
    if generation > 0 {
        lemma_dec_digits(generation);
        let d = dec_digits(generation);
        assert(base.take(versioned_prefix().len() as int) =~= versioned_prefix());
        assert(base.skip(base.len() - jsonl_suffix().len()) =~= jsonl_suffix());
        assert(base.subrange(9, base.len() - 6) =~= d);
        assert(d[0] != '0');
        assert(base != session_word() + jsonl_suffix()) by {
            if base == session_word() + jsonl_suffix() {
                assert(base[8] == 'v');
                assert((session_word() + jsonl_suffix())[8] == 'j');
            }
        }
    }
}

/* --------------------------- absolute paths --------------------------- */

pub open spec fn is_ascii_alpha(c: char) -> bool {
    ('a' <= c && c <= 'z') || ('A' <= c && c <= 'Z')
}

/// Absolute in either shape a desktop DSH can run on: a Windows drive
/// (`C:\` / `C:/`), a Windows root or UNC (`\`, `\\srv`), or a POSIX `/`.
pub open spec fn is_absolute_path_spec(p: Seq<char>) -> bool {
    if p.len() == 0 {
        false
    } else if p[0] == '/' || p[0] == '\\' {
        true
    } else {
        is_ascii_alpha(p[0]) && p.len() >= 3 && p[1] == ':' && (p[2] == '/' || p[2] == '\\')
    }
}

/// Whether `path` is absolute on Windows or POSIX — a deliberate superset of
/// DSH's platform-dependent rule.
pub fn is_absolute_path(path: &str) -> (r: bool)
    ensures
        r == is_absolute_path_spec(path@),
{
    let p = chars_of(path);
    if p.len() == 0 {
        return false;
    }
    let c = p[0];
    if c == '/' || c == '\\' {
        return true;
    }
    let alpha = ('a' <= c && c <= 'z') || ('A' <= c && c <= 'Z');
    alpha && p.len() >= 3 && p[1] == ':' && (p[2] == '/' || p[2] == '\\')
}

/* --------------------------- header contract --------------------------- */

pub open spec fn v0_required() -> Seq<Seq<char>> {
    seq![
        seq!['t', 'y', 'p', 'e'],
        seq!['v', 'e', 'r', 's', 'i', 'o', 'n'],
        seq!['i', 'd'],
        seq!['c', 'r', 'e', 'a', 't', 'e', 'd', 'A', 't'],
        seq!['d', 'e', 'l', 'e', 'g', 'a', 't', 'i', 'o', 'n', 'D', 'e', 'p', 't', 'h'],
    ]
}

pub open spec fn v0_optional() -> Seq<Seq<char>> {
    seq![
        seq!['c', 'w', 'd'],
        seq!['p', 'a', 'r', 'e', 'n', 't', 'S', 'e', 's', 's', 'i', 'o', 'n'],
        seq!['s', 'e', 'e', 'd', 'L', 'e', 'n', 'g', 't', 'h'],
        seq!['o', 'r', 'i', 'g', 'i', 'n'],
        seq!['a', 'g', 'e', 'n', 't', 'P', 'r', 'e', 's', 'e', 't'],
    ]
}

pub open spec fn v2_required() -> Seq<Seq<char>> {
    seq![
        seq!['t', 'y', 'p', 'e'],
        seq!['v', 'e', 'r', 's', 'i', 'o', 'n'],
        seq!['i', 'd'],
        seq!['c', 'r', 'e', 'a', 't', 'e', 'd', 'A', 't'],
        seq!['i', 's', 'S', 'e', 'e', 'd', 'e', 'd'],
        seq!['d', 'e', 'l', 'e', 'g', 'a', 't', 'i', 'o', 'n', 'D', 'e', 'p', 't', 'h'],
    ]
}

pub open spec fn v2_optional() -> Seq<Seq<char>> {
    seq![
        seq!['c', 'w', 'd'],
        seq!['p', 'a', 'r', 'e', 'n', 't', 'S', 'e', 's', 's', 'i', 'o', 'n'],
        seq!['o', 'r', 'i', 'g', 'i', 'n'],
        seq!['a', 'g', 'e', 'n', 't', 'P', 'r', 'e', 's', 'e', 't'],
    ]
}

/// The header keys DSH requires, and those it allows, per generation: v0/v1
/// carry `seedLength`; v2/v3 require `isSeeded` and have no `seedLength`.
pub open spec fn header_contract_spec(generation: nat) -> (Seq<Seq<char>>, Seq<Seq<char>>) {
    if generation <= HEADER_FORK_MAX_GENERATION {
        (v0_required(), v0_optional())
    } else {
        (v2_required(), v2_optional())
    }
}

fn word(v: Vec<char>) -> (r: String)
    ensures
        r@ == v@,
{
    string_of(&v)
}

/// The required and the allowed-optional header keys of a generation.
pub fn header_contract(generation: u64) -> (r: (Vec<String>, Vec<String>))
    ensures
        crate::text::views(r.0@) == header_contract_spec(generation as nat).0,
        crate::text::views(r.1@) == header_contract_spec(generation as nat).1,
{
    let ty = vec!['t', 'y', 'p', 'e'];
    let ver = vec!['v', 'e', 'r', 's', 'i', 'o', 'n'];
    let id = vec!['i', 'd'];
    let created = vec!['c', 'r', 'e', 'a', 't', 'e', 'd', 'A', 't'];
    let depth = vec!['d', 'e', 'l', 'e', 'g', 'a', 't', 'i', 'o', 'n', 'D', 'e', 'p', 't', 'h'];
    let seeded = vec!['i', 's', 'S', 'e', 'e', 'd', 'e', 'd'];
    let cwd = vec!['c', 'w', 'd'];
    let parent = vec!['p', 'a', 'r', 'e', 'n', 't', 'S', 'e', 's', 's', 'i', 'o', 'n'];
    let seed_len = vec!['s', 'e', 'e', 'd', 'L', 'e', 'n', 'g', 't', 'h'];
    let origin = vec!['o', 'r', 'i', 'g', 'i', 'n'];
    let preset = vec!['a', 'g', 'e', 'n', 't', 'P', 'r', 'e', 's', 'e', 't'];
    let mut req: Vec<String> = Vec::new();
    let mut opt: Vec<String> = Vec::new();
    if generation <= HEADER_FORK_MAX_GENERATION {
        req.push(word(ty));
        req.push(word(ver));
        req.push(word(id));
        req.push(word(created));
        req.push(word(depth));
        opt.push(word(cwd));
        opt.push(word(parent));
        opt.push(word(seed_len));
        opt.push(word(origin));
        opt.push(word(preset));
        assert(crate::text::views(req@) =~= v0_required());
        assert(crate::text::views(opt@) =~= v0_optional());
    } else {
        req.push(word(ty));
        req.push(word(ver));
        req.push(word(id));
        req.push(word(created));
        req.push(word(seeded));
        req.push(word(depth));
        opt.push(word(cwd));
        opt.push(word(parent));
        opt.push(word(origin));
        opt.push(word(preset));
        assert(crate::text::views(req@) =~= v2_required());
        assert(crate::text::views(opt@) =~= v2_optional());
    }
    (req, opt)
}

/* ------------------------------ framing ------------------------------ */

/// Zstandard frame magic, little-endian `0xFD2FB528`.
pub open spec fn zstd_magic() -> Seq<u8> {
    seq![0x28u8, 0xB5u8, 0x2Fu8, 0xFDu8]
}

/// Whether a zstd frame magic starts at `i`.
pub open spec fn magic_at(buf: Seq<u8>, i: int) -> bool {
    0 <= i && i + 4 <= buf.len() && buf.subrange(i, i + 4) == zstd_magic()
}

/// The first magic at or after `i`.
pub open spec fn next_magic(buf: Seq<u8>, i: int) -> Option<int>
    decreases buf.len() - i,
{
    if i < 0 || i + 4 > buf.len() {
        None
    } else if magic_at(buf, i) {
        Some(i)
    } else {
        next_magic(buf, i + 1)
    }
}

/// Frame byte-ranges from `i` on: each starts at a magic and runs to the
/// next magic after it, the last to the end of the buffer.
pub open spec fn frames_from(buf: Seq<u8>, i: int) -> Seq<(int, int)>
    decreases buf.len() - i,
{
    if i < 0 || i + 4 > buf.len() {
        Seq::empty()
    } else {
        match next_magic(buf, i) {
            None => Seq::empty(),
            Some(s) => {
                let n = match next_magic(buf, s + 4) {
                    Some(x) => x,
                    None => buf.len() as int,
                };
                proof {
                    lemma_next_magic(buf, i);
                    lemma_next_magic(buf, s + 4);
                }
                seq![(s, n)] + frames_from(buf, n)
            },
        }
    }
}

pub proof fn lemma_next_magic(buf: Seq<u8>, i: int)
    ensures
        match next_magic(buf, i) {
            Some(s) => i <= s && magic_at(buf, s),
            None => true,
        },
    decreases buf.len() - i,
{
    if 0 <= i && i + 4 <= buf.len() && !magic_at(buf, i) {
        lemma_next_magic(buf, i + 1);
    }
}

/// Detect a log's physical encoding by its leading bytes.
pub open spec fn detect_encoding_spec(buf: Seq<u8>) -> LogEncoding {
    if magic_at(buf, 0) {
        LogEncoding::Zstd
    } else {
        LogEncoding::Plain
    }
}

fn magic_at_exec(buf: &[u8], i: usize) -> (r: bool)
    ensures
        r == magic_at(buf@, i as int),
{
    if i > buf.len() || buf.len() - i < 4 {
        return false;
    }
    let r = buf[i] == 0x28 && buf[i + 1] == 0xB5 && buf[i + 2] == 0x2F && buf[i + 3] == 0xFD;
    assert(r == (buf@.subrange(i as int, i + 4) =~= zstd_magic()));
    r
}

/// Detect a log file's physical encoding by its leading bytes.
pub fn detect_encoding(buf: &[u8]) -> (r: LogEncoding)
    ensures
        r == detect_encoding_spec(buf@),
{
    if magic_at_exec(buf, 0) {
        LogEncoding::Zstd
    } else {
        LogEncoding::Plain
    }
}

fn next_magic_exec(buf: &[u8], from: usize) -> (r: Option<usize>)
    ensures
        match r {
            Some(s) => next_magic(buf@, from as int) == Some(s as int),
            None => next_magic(buf@, from as int).is_none(),
        },
{
    let mut i = from;
    while i <= buf.len() && buf.len() - i >= 4
        invariant
            from <= i,
            next_magic(buf@, from as int) == next_magic(buf@, i as int),
        decreases buf.len() - i,
    {
        if magic_at_exec(buf, i) {
            return Some(i);
        }
        i += 1;
    }
    None
}

/// Split a zstd artifact into frame byte-ranges by scanning for the magic.
pub fn split_frames(buf: &[u8]) -> (r: Vec<(usize, usize)>)
    ensures
        r@.map_values(|p: (usize, usize)| (p.0 as int, p.1 as int)) == frames_from(buf@, 0),
        forall|k: int| 0 <= k < r@.len() ==> (#[trigger] r@[k]).0 < r@[k].1 && r@[k].1 <= buf@.len(),
{
    let mut out: Vec<(usize, usize)> = Vec::new();
    let mut i: usize = 0;
    while i <= buf.len() && buf.len() - i >= 4
        invariant
            i <= buf.len(),
            frames_from(buf@, 0) == out@.map_values(|p: (usize, usize)| (p.0 as int, p.1 as int))
                + frames_from(buf@, i as int),
            forall|k: int| 0 <= k < out@.len() ==> (#[trigger] out@[k]).0 < out@[k].1 && out@[k].1 <= buf@.len(),
        decreases buf.len() - i,
    {
        match next_magic_exec(buf, i) {
            None => {
                assert(frames_from(buf@, i as int) =~= Seq::<(int, int)>::empty());
                assert(frames_from(buf@, buf.len() as int) =~= Seq::<(int, int)>::empty());
                i = buf.len();
            },
            Some(s) => {
                proof {
                    lemma_next_magic(buf@, i as int);
                }
                let n = match next_magic_exec(buf, s + 4) {
                    Some(x) => x,
                    None => buf.len(),
                };
                proof {
                    lemma_next_magic(buf@, s + 4);
                }
                let ghost before = out@;
                out.push((s, n));
                assert(out@.map_values(|p: (usize, usize)| (p.0 as int, p.1 as int)) =~= before.map_values(
                    |p: (usize, usize)| (p.0 as int, p.1 as int),
                ).push((s as int, n as int)));
                assert(frames_from(buf@, i as int) == seq![(s as int, n as int)] + frames_from(
                    buf@,
                    n as int,
                ));
                assert(out@.map_values(|p: (usize, usize)| (p.0 as int, p.1 as int)) + frames_from(
                    buf@,
                    n as int,
                ) =~= before.map_values(|p: (usize, usize)| (p.0 as int, p.1 as int))
                    + frames_from(buf@, i as int));
                i = n;
            },
        }
    }
    assert(forall|k: int| 0 <= k < out@.len() ==> (#[trigger] out@[k]).0 < out@[k].1 && out@[k].1 <= buf@.len());
    assert(frames_from(buf@, i as int) =~= Seq::<(int, int)>::empty());
    assert(out@.map_values(|p: (usize, usize)| (p.0 as int, p.1 as int)) + Seq::<(int, int)>::empty()
        =~= out@.map_values(|p: (usize, usize)| (p.0 as int, p.1 as int)));
    out
}

/* ------------------------------ errors ------------------------------ */

/// Why a session log could not be read or copied.
#[derive(Debug, PartialEq, Eq)]
pub enum CodecError {
    /// Empty or truncated below a complete header line.
    MissingHeader,
    /// First record is not a `type:"session"` line.
    NotASessionLog,
    /// The header declares a format version this build cannot read.
    UnsupportedVersion { found: u64 },
    /// The artifact's filename generation and the header's `version` disagree.
    GenerationMismatch { filename: u64, header: u64 },
    /// A session directory holds an artifact of the home's opposite encoding.
    EncodingMismatch(String),
    /// A frame's bytes are not decodable Zstandard.
    FrameDecode(String),
    /// A stored event row is unreadable or violates DSH's row invariant.
    RowShape(String),
    /// The header line is not valid JSON, or breaks the header contract.
    MalformedHeader(String),
    /// The artifact is not decodable text at all.
    UnsupportedEncoding(String),
}

/// The mathematical reading of a [`CodecError`].
pub enum CodecErrorView {
    MissingHeader,
    NotASessionLog,
    UnsupportedVersion { found: nat },
    GenerationMismatch { filename: nat, header: nat },
    EncodingMismatch(Seq<char>),
    FrameDecode(Seq<char>),
    RowShape(Seq<char>),
    MalformedHeader(Seq<char>),
    UnsupportedEncoding(Seq<char>),
}

impl CodecError {
    pub open spec fn view(&self) -> CodecErrorView {
        match self {
            CodecError::MissingHeader => CodecErrorView::MissingHeader,
            CodecError::NotASessionLog => CodecErrorView::NotASessionLog,
            CodecError::UnsupportedVersion { found } => CodecErrorView::UnsupportedVersion {
                found: *found as nat,
            },
            CodecError::GenerationMismatch { filename, header } => CodecErrorView::GenerationMismatch {
                filename: *filename as nat,
                header: *header as nat,
            },
            CodecError::EncodingMismatch(s) => CodecErrorView::EncodingMismatch(s@),
            CodecError::FrameDecode(s) => CodecErrorView::FrameDecode(s@),
            CodecError::RowShape(s) => CodecErrorView::RowShape(s@),
            CodecError::MalformedHeader(s) => CodecErrorView::MalformedHeader(s@),
            CodecError::UnsupportedEncoding(s) => CodecErrorView::UnsupportedEncoding(s@),
        }
    }
}

/// The explanation a command reports for a codec error.
pub open spec fn error_detail(e: CodecErrorView) -> Seq<char> {
    match e {
        CodecErrorView::MissingHeader => "会话日志为空或被截断，缺少 header 行"@,
        CodecErrorView::NotASessionLog => "首条记录不是 session header，可能不是 DSH 会话文件"@,
        CodecErrorView::UnsupportedVersion { found } => "会话格式版本 "@ + dec_digits(found)
            + " 超出当前支持的 v3，为避免损坏已拒绝复制"@,
        CodecErrorView::GenerationMismatch { filename, header } => "会话文件名标识 v"@ + dec_digits(
            filename,
        ) + "，但 header 自称 v"@ + dec_digits(header) + "：DSH 会直接拒绝该会话"@,
        CodecErrorView::EncodingMismatch(name) => "会话目录里存在与 home 物理编码不符的产物 "@
            + name + "：DSH 会因此拒绝启动整个实例"@,
        CodecErrorView::FrameDecode(e) => "zstd 帧解码失败: "@ + e,
        CodecErrorView::RowShape(e) => "会话事件行无法用于计算继承长度: "@ + e,
        CodecErrorView::MalformedHeader(e) => "header 解析失败: "@ + e,
        CodecErrorView::UnsupportedEncoding(e) => "会话日志编码不支持: "@ + e,
    }
}

fn cat3(a: &[char], b: &[char], c: &[char]) -> (r: Vec<char>)
    ensures
        r@ == a@ + b@ + c@,
{
    concat_chars(&concat_chars(a, b), c)
}

impl CodecError {
    /// The explanation a command reports for this error.
    pub fn detail(&self) -> (r: String)
        ensures
            r@ == error_detail(self.view()),
    {
        match self {
            CodecError::MissingHeader => "会话日志为空或被截断，缺少 header 行".to_owned(),
            CodecError::NotASessionLog => "首条记录不是 session header，可能不是 DSH 会话文件".to_owned(),
            CodecError::UnsupportedVersion { found } => string_of(
                &cat3(
                    &chars_of("会话格式版本 "),
                    &decimal_chars(*found),
                    &chars_of(" 超出当前支持的 v3，为避免损坏已拒绝复制"),
                ),
            ),
            CodecError::GenerationMismatch { filename, header } => {
                let a = cat3(&chars_of("会话文件名标识 v"), &decimal_chars(*filename), &chars_of("，但 header 自称 v"));
                string_of(&cat3(&a, &decimal_chars(*header), &chars_of("：DSH 会直接拒绝该会话")))
            },
            CodecError::EncodingMismatch(name) => string_of(
                &cat3(
                    &chars_of("会话目录里存在与 home 物理编码不符的产物 "),
                    &chars_of(name.as_str()),
                    &chars_of("：DSH 会因此拒绝启动整个实例"),
                ),
            ),
            CodecError::FrameDecode(e) => string_of(&concat_chars(&chars_of("zstd 帧解码失败: "), &chars_of(e.as_str()))),
            CodecError::RowShape(e) => string_of(&concat_chars(&chars_of("会话事件行无法用于计算继承长度: "), &chars_of(e.as_str()))),
            CodecError::MalformedHeader(e) => string_of(&concat_chars(&chars_of("header 解析失败: "), &chars_of(e.as_str()))),
            CodecError::UnsupportedEncoding(e) => string_of(&concat_chars(&chars_of("会话日志编码不支持: "), &chars_of(e.as_str()))),
        }
    }
}

/* ---------------------------- header checks ---------------------------- */

pub open spec fn k_type() -> Seq<char> { seq!['t', 'y', 'p', 'e'] }
pub open spec fn k_version() -> Seq<char> { seq!['v', 'e', 'r', 's', 'i', 'o', 'n'] }
pub open spec fn k_id() -> Seq<char> { seq!['i', 'd'] }
pub open spec fn k_created() -> Seq<char> { seq!['c', 'r', 'e', 'a', 't', 'e', 'd', 'A', 't'] }
pub open spec fn k_depth() -> Seq<char> {
    seq!['d', 'e', 'l', 'e', 'g', 'a', 't', 'i', 'o', 'n', 'D', 'e', 'p', 't', 'h']
}
pub open spec fn k_seeded() -> Seq<char> { seq!['i', 's', 'S', 'e', 'e', 'd', 'e', 'd'] }
pub open spec fn k_cwd() -> Seq<char> { seq!['c', 'w', 'd'] }
pub open spec fn k_parent() -> Seq<char> {
    seq!['p', 'a', 'r', 'e', 'n', 't', 'S', 'e', 's', 's', 'i', 'o', 'n']
}
pub open spec fn k_origin() -> Seq<char> { seq!['o', 'r', 'i', 'g', 'i', 'n'] }
pub open spec fn k_preset() -> Seq<char> { seq!['a', 'g', 'e', 'n', 't', 'P', 'r', 'e', 's', 'e', 't'] }
pub open spec fn w_session() -> Seq<char> { seq!['s', 'e', 's', 's', 'i', 'o', 'n'] }
pub open spec fn w_subagent() -> Seq<char> { seq!['s', 'u', 'b', 'a', 'g', 'e', 'n', 't'] }

pub type Fields = Seq<(Seq<char>, JsonScalarView)>;

/// The value of the first field named `key`, from index `k` on.
pub open spec fn field_from(f: Fields, key: Seq<char>, k: int) -> Option<JsonScalarView>
    decreases f.len() - k,
{
    if k < 0 || k >= f.len() {
        None
    } else if f[k].0 == key {
        Some(f[k].1)
    } else {
        field_from(f, key, k + 1)
    }
}

pub open spec fn get_field(f: Fields, key: Seq<char>) -> Option<JsonScalarView> {
    field_from(f, key, 0)
}

/// The first required key, from `k` on, that the header lacks.
pub open spec fn first_missing(f: Fields, req: Seq<Seq<char>>, k: int) -> Option<Seq<char>>
    decreases req.len() - k,
{
    if k < 0 || k >= req.len() {
        None
    } else if get_field(f, req[k]).is_none() {
        Some(req[k])
    } else {
        first_missing(f, req, k + 1)
    }
}

/// The first header key, from `k` on, outside the generation's contract.
pub open spec fn first_unknown(f: Fields, req: Seq<Seq<char>>, opt: Seq<Seq<char>>, k: int) -> Option<
    Seq<char>,
>
    decreases f.len() - k,
{
    if k < 0 || k >= f.len() {
        None
    } else if !req.contains(f[k].0) && !opt.contains(f[k].0) {
        Some(f[k].0)
    } else {
        first_unknown(f, req, opt, k + 1)
    }
}

/// A non-negative integer that also fits an `i64`.
pub open spec fn nonneg_field(f: Fields, key: Seq<char>) -> bool {
    match get_field(f, key) {
        Some(JsonScalarView::UInt(v)) => v <= i64::MAX,
        _ => false,
    }
}

/// The optional keys that must be strings when present, in check order.
pub open spec fn string_keys() -> Seq<Seq<char>> {
    seq![k_cwd(), k_parent(), k_preset(), k_origin()]
}

/// The first key of `keys`, from `k` on, present with a non-string value.
pub open spec fn first_non_string(f: Fields, keys: Seq<Seq<char>>, k: int) -> Option<Seq<char>>
    decreases keys.len() - k,
{
    if k < 0 || k >= keys.len() {
        None
    } else if get_field(f, keys[k]).is_some() && !(get_field(f, keys[k]).unwrap() is Str) {
        Some(keys[k])
    } else {
        first_non_string(f, keys, k + 1)
    }
}

/// What the listing and a copy read from a valid header.
pub struct HeaderView {
    pub id: Seq<char>,
    pub generation: nat,
    pub created_at: nat,
    pub cwd: Option<Seq<char>>,
    pub parent: Option<Seq<char>>,
    pub origin_subagent: bool,
}

pub open spec fn str_field(f: Fields, key: Seq<char>) -> Option<Seq<char>> {
    match get_field(f, key) {
        Some(JsonScalarView::Str(s)) => Some(s),
        _ => None,
    }
}

/// The checks after the version: DSH's exact key whitelist, the integer
/// and boolean fields, the string fields, an absolute `cwd`, `origin` only
/// `subagent`, and a non-empty `id`.
pub open spec fn check_contract(f: Fields, v: nat) -> Result<HeaderView, CodecErrorView> {
    let (req, opt) = header_contract_spec(v);
    if first_missing(f, req, 0).is_some() {
        Err(CodecErrorView::MalformedHeader("header 缺少 "@ + first_missing(f, req, 0).unwrap()))
    } else if first_unknown(f, req, opt, 0).is_some() {
        Err(
            CodecErrorView::MalformedHeader(
                "header 含 v"@ + dec_digits(v) + " 契约之外的字段 "@ + first_unknown(f, req, opt, 0).unwrap(),
            ),
        )
    } else if !nonneg_field(f, k_created()) {
        Err(CodecErrorView::MalformedHeader("header 的 "@ + k_created() + " 必须是非负整数"@))
    } else if !nonneg_field(f, k_depth()) {
        Err(CodecErrorView::MalformedHeader("header 的 "@ + k_depth() + " 必须是非负整数"@))
    } else if v > HEADER_FORK_MAX_GENERATION && !(get_field(f, k_seeded()) matches Some(
        JsonScalarView::Bool(_),
    )) {
        Err(CodecErrorView::MalformedHeader("header 的 isSeeded 必须是布尔值"@))
    } else if first_non_string(f, string_keys(), 0).is_some() {
        Err(
            CodecErrorView::MalformedHeader(
                "header 的 "@ + first_non_string(f, string_keys(), 0).unwrap() + " 必须是字符串"@,
            ),
        )
    } else if str_field(f, k_cwd()).is_some() && !is_absolute_path_spec(str_field(f, k_cwd()).unwrap()) {
        Err(CodecErrorView::MalformedHeader("header 的 cwd 必须是绝对路径"@))
    } else if str_field(f, k_origin()).is_some() && str_field(f, k_origin()).unwrap() != w_subagent() {
        Err(CodecErrorView::MalformedHeader("header 的 origin 只能是 \"subagent\""@))
    } else if str_field(f, k_id()).is_none() || str_field(f, k_id()).unwrap().len() == 0 {
        Err(CodecErrorView::MalformedHeader("header 缺少 id"@))
    } else {
        Ok(
            HeaderView {
                id: str_field(f, k_id()).unwrap(),
                generation: v,
                created_at: match get_field(f, k_created()) {
                    Some(JsonScalarView::UInt(c)) => c,
                    _ => 0,
                },
                cwd: str_field(f, k_cwd()),
                parent: str_field(f, k_parent()),
                origin_subagent: str_field(f, k_origin()) == Some(w_subagent()),
            },
        )
    }
}

/// A header's fields checked against the generation its filename names.
pub open spec fn check_header_fields(f: Fields, generation: nat) -> Result<HeaderView, CodecErrorView> {
    if get_field(f, k_type()) != Some(JsonScalarView::Str(w_session())) {
        Err(CodecErrorView::NotASessionLog)
    } else {
        match get_field(f, k_version()) {
            Some(JsonScalarView::UInt(v)) => if v > MAX_READABLE_GENERATION {
                Err(CodecErrorView::UnsupportedVersion { found: v })
            } else if v != generation {
                Err(CodecErrorView::GenerationMismatch { filename: generation, header: v })
            } else {
                check_contract(f, v)
            },
            _ => Err(CodecErrorView::MalformedHeader("header 缺少 version"@)),
        }
    }
}

/// A header line read against the generation its filename names.
pub open spec fn parse_header_spec(line: Seq<char>, generation: nat) -> Result<HeaderView, CodecErrorView> {
    if is_blank(line) {
        Err(CodecErrorView::MissingHeader)
    } else {
        match json_object_fields(line) {
            Err(e) => Err(CodecErrorView::MalformedHeader(e)),
            Ok(None) => Err(CodecErrorView::NotASessionLog),
            Ok(Some(f)) => check_header_fields(f, generation),
        }
    }
}

/// The decoded header record of a session log.
#[derive(Debug)]
pub struct SessionHeaderRecord {
    /// The header line as read.
    pub line: String,
    pub id: String,
    /// The artifact's format generation, equal to the header's `version`.
    pub generation: u64,
    pub created_at: u64,
    pub cwd: Option<String>,
    pub parent: Option<String>,
    pub origin_subagent: bool,
}

pub open spec fn opt_view(o: Option<String>) -> Option<Seq<char>> {
    match o {
        Some(s) => Some(s@),
        None => None,
    }
}

impl SessionHeaderRecord {
    pub open spec fn view(&self) -> HeaderView {
        HeaderView {
            id: self.id@,
            generation: self.generation as nat,
            created_at: self.created_at as nat,
            cwd: opt_view(self.cwd),
            parent: opt_view(self.parent),
            origin_subagent: self.origin_subagent,
        }
    }

    /// Whether this generation carries a copy's fork marker in the header.
    pub fn supports_header_fork(&self) -> (r: bool)
        ensures
            r == (self.generation <= HEADER_FORK_MAX_GENERATION),
    {
        self.generation <= HEADER_FORK_MAX_GENERATION
    }

    /// The session's working directory, when the header records one.
    pub fn cwd(&self) -> (r: Option<&str>)
        ensures
            crate::verify::opt_str(r) == opt_view(self.cwd),
    {
        match &self.cwd {
            Some(c) => Some(c.as_str()),
            None => None,
        }
    }

    /// The session this one was forked from, when it is a fork.
    pub fn parent(&self) -> (r: Option<&str>)
        ensures
            crate::verify::opt_str(r) == opt_view(self.parent),
    {
        match &self.parent {
            Some(p) => Some(p.as_str()),
            None => None,
        }
    }
}

pub open spec fn header_result_view(r: Result<SessionHeaderRecord, CodecError>) -> Result<HeaderView, CodecErrorView> {
    match r {
        Ok(h) => Ok(h.view()),
        Err(e) => Err(e.view()),
    }
}

fn field_index(f: &Vec<(String, JsonScalar)>, key: &[char]) -> (r: Option<usize>)
    ensures
        match r {
            Some(i) => i < f@.len() && get_field(fields_view(f@), key@) == Some(f@[i as int].1.view()),
            None => get_field(fields_view(f@), key@).is_none(),
        },
{
    let ghost fv = fields_view(f@);
    let mut k: usize = 0;
    while k < f.len()
        invariant
            k <= f.len(),
            fv == fields_view(f@),
            fv.len() == f.len(),
            get_field(fv, key@) == field_from(fv, key@, k as int),
        decreases f.len() - k,
    {
        assert(fv[k as int] == (f@[k as int].0@, f@[k as int].1.view()));
        let c = chars_of(f[k].0.as_str());
        if chars_eq(&c, key) {
            return Some(k);
        }
        k += 1;
    }
    None
}

fn str_field_exec(f: &Vec<(String, JsonScalar)>, key: &[char]) -> (r: Option<String>)
    ensures
        opt_view(r) == str_field(fields_view(f@), key@),
{
    match field_index(f, key) {
        Some(i) => match &f[i].1 {
            JsonScalar::Str(s) => Some(s.clone()),
            _ => None,
        },
        None => None,
    }
}

fn words_contain(words: &Vec<String>, key: &String) -> (r: bool)
    ensures
        r == views(words@).contains(key@),
{
    crate::resources::contains_string(words, key)
}

fn first_missing_exec(f: &Vec<(String, JsonScalar)>, req: &Vec<String>) -> (r: Option<String>)
    ensures
        opt_view(r) == first_missing(fields_view(f@), views(req@), 0),
{
    let ghost rv = views(req@);
    let mut k: usize = 0;
    while k < req.len()
        invariant
            k <= req.len(),
            rv == views(req@),
            rv.len() == req.len(),
            first_missing(fields_view(f@), rv, 0) == first_missing(fields_view(f@), rv, k as int),
        decreases req.len() - k,
    {
        assert(rv[k as int] == req@[k as int]@);
        let c = chars_of(req[k].as_str());
        if field_index(f, &c).is_none() {
            return Some(req[k].clone());
        }
        k += 1;
    }
    None
}

fn first_unknown_exec(f: &Vec<(String, JsonScalar)>, req: &Vec<String>, opt: &Vec<String>) -> (r: Option<String>)
    ensures
        opt_view(r) == first_unknown(fields_view(f@), views(req@), views(opt@), 0),
{
    let ghost fv = fields_view(f@);
    let mut k: usize = 0;
    while k < f.len()
        invariant
            k <= f.len(),
            fv == fields_view(f@),
            fv.len() == f.len(),
            first_unknown(fv, views(req@), views(opt@), 0) == first_unknown(fv, views(req@), views(opt@), k as int),
        decreases f.len() - k,
    {
        assert(fv[k as int] == (f@[k as int].0@, f@[k as int].1.view()));
        if !words_contain(req, &f[k].0) && !words_contain(opt, &f[k].0) {
            return Some(f[k].0.clone());
        }
        k += 1;
    }
    None
}

fn nonneg_exec(f: &Vec<(String, JsonScalar)>, key: &[char]) -> (r: bool)
    ensures
        r == nonneg_field(fields_view(f@), key@),
{
    match field_index(f, key) {
        Some(i) => match &f[i].1 {
            JsonScalar::UInt(v) => *v <= i64::MAX as u64,
            _ => false,
        },
        None => false,
    }
}

fn first_non_string_exec(f: &Vec<(String, JsonScalar)>, keys: &Vec<String>) -> (r: Option<String>)
    ensures
        opt_view(r) == first_non_string(fields_view(f@), views(keys@), 0),
{
    let ghost kv = views(keys@);
    let mut k: usize = 0;
    while k < keys.len()
        invariant
            k <= keys.len(),
            kv == views(keys@),
            kv.len() == keys.len(),
            first_non_string(fields_view(f@), kv, 0) == first_non_string(fields_view(f@), kv, k as int),
        decreases keys.len() - k,
    {
        assert(kv[k as int] == keys@[k as int]@);
        let c = chars_of(keys[k].as_str());
        match field_index(f, &c) {
            Some(i) => match &f[i].1 {
                JsonScalar::Str(_) => {},
                _ => {
                    return Some(keys[k].clone());
                },
            },
            None => {},
        }
        k += 1;
    }
    None
}

fn malformed_tail(a: &str, b: &[char]) -> (r: CodecError)
    ensures
        r.view() == CodecErrorView::MalformedHeader(a@ + b@),
{
    CodecError::MalformedHeader(string_of(&concat_chars(&chars_of(a), b)))
}

fn malformed(a: &str, b: &[char], c: &str) -> (r: CodecError)
    ensures
        r.view() == CodecErrorView::MalformedHeader(a@ + b@ + c@),
{
    CodecError::MalformedHeader(string_of(&cat3(&chars_of(a), b, &chars_of(c))))
}

/// A header's fields checked against the generation its filename names.
pub fn check_header(f: Vec<(String, JsonScalar)>, line: String, generation: u64) -> (r: Result<
    SessionHeaderRecord,
    CodecError,
>)
    ensures
        header_result_view(r) == check_header_fields(fields_view(f@), generation as nat),
        match r {
            Ok(h) => h.line@ == line@,
            Err(_) => true,
        },
{
    let ghost fv = fields_view(f@);
    let session = vec!['s', 'e', 's', 's', 'i', 'o', 'n'];
    assert(session@ =~= w_session());
    let kt = vec!['t', 'y', 'p', 'e'];
    assert(kt@ =~= k_type());
    let is_session = match field_index(&f, &kt) {
        Some(i) => match &f[i].1 {
            JsonScalar::Str(t) => chars_eq(&chars_of(t.as_str()), &session),
            _ => false,
        },
        None => false,
    };
    if !is_session {
        return Err(CodecError::NotASessionLog);
    }
    let kv = vec!['v', 'e', 'r', 's', 'i', 'o', 'n'];
    assert(kv@ =~= k_version());
    let v: u64 = match field_index(&f, &kv) {
        Some(i) => match &f[i].1 {
            JsonScalar::UInt(v) => *v,
            _ => {
                return Err(CodecError::MalformedHeader("header 缺少 version".to_owned()));
            },
        },
        None => {
            return Err(CodecError::MalformedHeader("header 缺少 version".to_owned()));
        },
    };
    if v > MAX_READABLE_GENERATION {
        return Err(CodecError::UnsupportedVersion { found: v });
    }
    if v != generation {
        return Err(CodecError::GenerationMismatch { filename: generation, header: v });
    }
    let (req, opt) = header_contract(v);
    if let Some(k) = first_missing_exec(&f, &req) {
        return Err(malformed_tail("header 缺少 ", &chars_of(k.as_str())));
    }
    if let Some(k) = first_unknown_exec(&f, &req, &opt) {
        let b = cat3(&decimal_chars(v), &chars_of(" 契约之外的字段 "), &chars_of(k.as_str()));
        let e = malformed_tail("header 含 v", &b);
        assert("header 含 v"@ + b@ =~= "header 含 v"@ + dec_digits(v as nat) + " 契约之外的字段 "@ + k@);
        return Err(e);
    }
    let kc = vec!['c', 'r', 'e', 'a', 't', 'e', 'd', 'A', 't'];
    assert(kc@ =~= k_created());
    if !nonneg_exec(&f, &kc) {
        return Err(malformed("header 的 ", &kc, " 必须是非负整数"));
    }
    let kd = vec!['d', 'e', 'l', 'e', 'g', 'a', 't', 'i', 'o', 'n', 'D', 'e', 'p', 't', 'h'];
    assert(kd@ =~= k_depth());
    if !nonneg_exec(&f, &kd) {
        return Err(malformed("header 的 ", &kd, " 必须是非负整数"));
    }
    let ks = vec!['i', 's', 'S', 'e', 'e', 'd', 'e', 'd'];
    assert(ks@ =~= k_seeded());
    if v > HEADER_FORK_MAX_GENERATION {
        let seeded = match field_index(&f, &ks) {
            Some(i) => match &f[i].1 {
                JsonScalar::Bool(_) => true,
                _ => false,
            },
            None => false,
        };
        if !seeded {
            return Err(CodecError::MalformedHeader("header 的 isSeeded 必须是布尔值".to_owned()));
        }
    }
    let kcwd = vec!['c', 'w', 'd'];
    let kpar = vec!['p', 'a', 'r', 'e', 'n', 't', 'S', 'e', 's', 's', 'i', 'o', 'n'];
    let kpre = vec!['a', 'g', 'e', 'n', 't', 'P', 'r', 'e', 's', 'e', 't'];
    let kori = vec!['o', 'r', 'i', 'g', 'i', 'n'];
    assert(kcwd@ =~= k_cwd());
    assert(kpar@ =~= k_parent());
    assert(kpre@ =~= k_preset());
    assert(kori@ =~= k_origin());
    let mut sk: Vec<String> = Vec::new();
    sk.push(string_of(&kcwd));
    sk.push(string_of(&kpar));
    sk.push(string_of(&kpre));
    sk.push(string_of(&kori));
    assert(views(sk@) =~= string_keys());
    if let Some(k) = first_non_string_exec(&f, &sk) {
        return Err(malformed("header 的 ", &chars_of(k.as_str()), " 必须是字符串"));
    }
    let cwd = str_field_exec(&f, &kcwd);
    if let Some(c) = &cwd {
        if !is_absolute_path(c.as_str()) {
            return Err(CodecError::MalformedHeader("header 的 cwd 必须是绝对路径".to_owned()));
        }
    }
    let sub = vec!['s', 'u', 'b', 'a', 'g', 'e', 'n', 't'];
    assert(sub@ =~= w_subagent());
    let origin = str_field_exec(&f, &kori);
    let mut origin_subagent = false;
    if let Some(o) = &origin {
        if !chars_eq(&chars_of(o.as_str()), &sub) {
            return Err(CodecError::MalformedHeader("header 的 origin 只能是 \"subagent\"".to_owned()));
        }
        origin_subagent = true;
    }
    let kid = vec!['i', 'd'];
    assert(kid@ =~= k_id());
    let id = match str_field_exec(&f, &kid) {
        Some(id) => {
            if id.as_str().is_empty() {
                return Err(CodecError::MalformedHeader("header 缺少 id".to_owned()));
            }
            id
        },
        None => {
            return Err(CodecError::MalformedHeader("header 缺少 id".to_owned()));
        },
    };
    let created_at: u64 = match field_index(&f, &kc) {
        Some(i) => match &f[i].1 {
            JsonScalar::UInt(c) => *c,
            _ => 0,
        },
        None => 0,
    };
    let parent = str_field_exec(&f, &kpar);
    Ok(SessionHeaderRecord { line, id, generation: v, created_at, cwd, parent, origin_subagent })
}

/// Parse a session log header against the generation its artifact filename
/// names: refuses a missing or non-session header, a version this build
/// cannot read or that disagrees with the filename, and any field outside
/// that generation's contract.
pub fn parse_header(first_line: &str, generation: u64) -> (r: Result<SessionHeaderRecord, CodecError>)
    ensures
        header_result_view(r) == parse_header_spec(first_line@, generation as nat),
        match r {
            Ok(h) => h.line@ == first_line@,
            Err(_) => true,
        },
{
    let c = chars_of(first_line);
    if is_blank_exec(&c) {
        return Err(CodecError::MissingHeader);
    }
    match parse_json_object(first_line) {
        Err(e) => Err(CodecError::MalformedHeader(e)),
        Ok(None) => Err(CodecError::NotASessionLog),
        Ok(Some(f)) => check_header(f, first_line.to_owned(), generation),
    }
}

/* --------------------------- committed records --------------------------- */

/// `s.split('\n')`, built from the left one character at a time.
pub open spec fn split_nl(s: Seq<char>) -> Seq<Seq<char>>
    decreases s.len(),
{
    if s.len() == 0 {
        seq![Seq::<char>::empty()]
    } else {
        let p = split_nl(s.drop_last());
        if s.last() == '\n' {
            p.push(Seq::<char>::empty())
        } else {
            p.update(p.len() - 1, p.last().push(s.last()))
        }
    }
}

pub proof fn lemma_split_nl_len(s: Seq<char>)
    ensures
        split_nl(s).len() >= 1,
    decreases s.len(),
{
    if s.len() > 0 {
        lemma_split_nl_len(s.drop_last());
    }
}

/// The non-blank lines of `s`, in order.
pub open spec fn nonblank(s: Seq<Seq<char>>) -> Seq<Seq<char>>
    decreases s.len(),
{
    if s.len() == 0 {
        s
    } else if is_blank(s.last()) {
        nonblank(s.drop_last())
    } else {
        nonblank(s.drop_last()).push(s.last())
    }
}

/// The header line of decoded plaintext: its first line, unless blank.
pub open spec fn header_piece(text: Seq<char>) -> Option<Seq<char>> {
    if is_blank(split_nl(text)[0]) {
        None
    } else {
        Some(split_nl(text)[0])
    }
}

/// The committed event lines: every non-blank line after the header except
/// the last piece, which is either empty (the text ends in a newline) or a
/// torn record a crash left mid-append.
pub open spec fn committed_events(text: Seq<char>) -> Seq<Seq<char>> {
    let p = split_nl(text);
    if p.len() >= 2 {
        nonblank(p.subrange(1, p.len() - 1))
    } else {
        Seq::empty()
    }
}

/// Event lines as stored: each followed by a newline.
pub open spec fn events_text(events: Seq<Seq<char>>) -> Seq<char>
    decreases events.len(),
{
    if events.len() == 0 {
        Seq::empty()
    } else {
        events_text(events.drop_last()) + events.last() + seq!['\n']
    }
}

pub open spec fn cviews(v: Seq<Vec<char>>) -> Seq<Seq<char>> {
    v.map_values(|x: Vec<char>| x@)
}

/// The pieces of `text` between newlines.
pub fn split_nl_exec(text: &[char]) -> (r: Vec<Vec<char>>)
    ensures
        cviews(r@) == split_nl(text@),
{
    let mut pieces: Vec<Vec<char>> = Vec::new();
    let mut cur: Vec<char> = Vec::new();
    let mut i: usize = 0;
    assert(text@.take(0) =~= Seq::<char>::empty());
    assert(cviews(pieces@).push(cur@) =~= split_nl(text@.take(0)));
    while i < text.len()
        invariant
            i <= text.len(),
            cviews(pieces@).push(cur@) == split_nl(text@.take(i as int)),
        decreases text.len() - i,
    {
        let ghost t = text@.take(i + 1);
        assert(t.drop_last() =~= text@.take(i as int));
        let ghost before = cviews(pieces@);
        if text[i] == '\n' {
            let done = cur;
            pieces.push(done);
            cur = Vec::new();
            assert(cviews(pieces@) =~= before.push(done@));
        } else {
            let ghost old_cur = cur@;
            cur.push(text[i]);
            assert(cviews(pieces@).push(cur@) =~= before.push(old_cur).update(
                before.len() as int,
                old_cur.push(text@[i as int]),
            ));
        }
        i += 1;
    }
    assert(text@.take(i as int) =~= text@);
    pieces.push(cur);
    pieces
}

fn nonblank_range(pieces: &Vec<Vec<char>>, lo: usize, hi: usize) -> (r: Vec<String>)
    requires
        lo <= hi <= pieces.len(),
    ensures
        views(r@) == nonblank(cviews(pieces@).subrange(lo as int, hi as int)),
{
    let ghost pv = cviews(pieces@);
    let mut out: Vec<String> = Vec::new();
    let mut k = lo;
    assert(pv.subrange(lo as int, lo as int) =~= Seq::<Seq<char>>::empty());
    while k < hi
        invariant
            lo <= k <= hi <= pieces.len(),
            pv == cviews(pieces@),
            views(out@) == nonblank(pv.subrange(lo as int, k as int)),
        decreases hi - k,
    {
        assert(pv.subrange(lo as int, k + 1).drop_last() =~= pv.subrange(lo as int, k as int));
        assert(pv[k as int] == pieces@[k as int]@);
        if !is_blank_exec(&pieces[k]) {
            let ghost before = out@;
            let line = string_of(&pieces[k]);
            out.push(line);
            proof {
                crate::text::lemma_views_push(before, line);
            }
        }
        k += 1;
    }
    out
}

/// Split decoded plaintext into its header line and committed event lines.
/// A torn final record (no trailing newline) is uncommitted and dropped;
/// blank lines are never events.
pub fn split_committed(text: &[char]) -> (r: (Option<String>, Vec<String>))
    ensures
        opt_view(r.0) == header_piece(text@),
        views(r.1@) == committed_events(text@),
{
    let pieces = split_nl_exec(text);
    proof {
        lemma_split_nl_len(text@);
    }
    assert(cviews(pieces@)[0] == pieces@[0]@);
    let header = if is_blank_exec(&pieces[0]) {
        None
    } else {
        Some(string_of(&pieces[0]))
    };
    let events = if pieces.len() >= 2 {
        nonblank_range(&pieces, 1, pieces.len() - 1)
    } else {
        Vec::new()
    };
    (header, events)
}

/// The stored text of committed event lines, each newline-terminated.
pub fn encode_events(events: &Vec<String>) -> (r: Vec<char>)
    ensures
        r@ == events_text(views(events@)),
{
    let ghost ev = views(events@);
    let mut out: Vec<char> = Vec::new();
    let mut k: usize = 0;
    while k < events.len()
        invariant
            k <= events.len(),
            ev == views(events@),
            ev.len() == events.len(),
            out@ == events_text(ev.take(k as int)),
        decreases events.len() - k,
    {
        assert(ev.take(k + 1).drop_last() =~= ev.take(k as int));
        assert(ev[k as int] == events@[k as int]@);
        out = concat_chars(&out, &chars_of(events[k].as_str()));
        out.push('\n');
        k += 1;
    }
    assert(ev.take(k as int) =~= ev);
    out
}

/* ---------------------------- outside calls ---------------------------- */

/// The message `std::str::from_utf8` gives for bytes that are not UTF-8.
pub uninterp spec fn utf8_error_text(bytes: Seq<u8>) -> Seq<char>;

/// Calls `std::str::from_utf8`: the text when the bytes are valid UTF-8,
/// else the error's message.
#[verifier::external_body]
pub fn text_from_utf8(bytes: &[u8]) -> (r: Result<String, String>)
    ensures
        match r {
            Ok(s) => valid_utf8(bytes@) && s@ == decode_utf8(bytes@),
            Err(e) => !valid_utf8(bytes@) && e@ == utf8_error_text(bytes@),
        },
{
    std::str::from_utf8(bytes).map(|s| s.to_owned()).map_err(|e| e.to_string())
}

/// What `zstd::decode_all` reads from one frame's bytes: the decompressed
/// bytes, or the error's message.
pub uninterp spec fn zstd_frame_plain(frame: Seq<u8>) -> Result<Seq<u8>, Seq<char>>;

pub open spec fn bytes_result_view(r: Result<Vec<u8>, String>) -> Result<Seq<u8>, Seq<char>> {
    match r {
        Ok(v) => Ok(v@),
        Err(e) => Err(e@),
    }
}

/// Decodes one zstd frame with `zstd::decode_all` (the reference C
/// decoder behind the `zstd` crate that also writes the frames). Trusted:
/// the result is a function of the bytes ([`zstd_frame_plain`]), and
/// malformed bytes come back as `Err` without a panic.
///
/// The pure-Rust decoder was not used for this: its source holds explicit
/// panics and assertions on internal invariants along the decoding path
/// (block, literal, sequence and bit-reader code) whose unreachability on
/// every byte input could not be shown. On this path the C decoder reports
/// corrupt or truncated input as an error code (`ZSTD_decompressStream`,
/// `zstd.h`), which `zstd_safe` turns into `Err`; the assertions in
/// `zstd_safe`'s buffer wrappers check that a buffer position stays within
/// its buffer, which `zstd.h` guarantees ("Necessarily 0 <= pos <= size");
/// a frame cut short ends with the `incomplete frame` error of
/// `zstd::stream::raw::Decoder::finish`; and a declared content size only
/// sizes a `try_reserve`, capped, whose failure is ignored.
#[verifier::external_body]
fn decode_frame(frame: &[u8]) -> (r: Result<Vec<u8>, String>)
    ensures
        bytes_result_view(r) == zstd_frame_plain(frame@),
{
    zstd::decode_all(frame).map_err(|e| e.to_string())
}

/// What `zstd::encode_all` produces from bytes at a compression level: one
/// frame's bytes, or the error's message.
pub uninterp spec fn zstd_encoded(data: Seq<u8>, level: int) -> Result<Seq<u8>, Seq<char>>;

/// Compresses bytes into one zstd frame with `zstd::encode_all`. Trusted: the
/// result is a function of the bytes and the level ([`zstd_encoded`]).
#[verifier::external_body]
fn encode_frame(data: &[u8], level: i32) -> (r: Result<Vec<u8>, String>)
    ensures
        bytes_result_view(r) == zstd_encoded(data@, level as int),
{
    zstd::encode_all(data, level).map_err(|e| e.to_string())
}

/// What `serde_json` writes for the object in `line` with the given string
/// fields and one unsigned field set (inserted or replaced), or the error's
/// message.
pub uninterp spec fn json_with_fields(
    line: Seq<char>,
    strings: Seq<(Seq<char>, Seq<char>)>,
    number: (Seq<char>, nat),
) -> Result<Seq<char>, Seq<char>>;

pub open spec fn string_result_view(r: Result<String, String>) -> Result<Seq<char>, Seq<char>> {
    match r {
        Ok(s) => Ok(s@),
        Err(e) => Err(e@),
    }
}

pub open spec fn pairs_view(v: Seq<(String, String)>) -> Seq<(Seq<char>, Seq<char>)> {
    v.map_values(|p: (String, String)| (p.0@, p.1@))
}

/// Parses `line` as a JSON object with `serde_json`, inserts the string
/// fields and the number field, and writes it back with
/// `serde_json::to_string`. Trusted: the result is a function of the
/// arguments ([`json_with_fields`]).
#[verifier::external_body]
fn set_json_fields(line: &str, strings: &Vec<(String, String)>, number: (&str, u64)) -> (r: Result<String, String>)
    ensures
        string_result_view(r) == json_with_fields(line@, pairs_view(strings@), (number.0@, number.1 as nat)),
{
    let mut obj: serde_json::Map<String, serde_json::Value> = serde_json::from_str(line).map_err(|e| e.to_string())?;
    for (k, v) in strings {
        obj.insert(k.clone(), serde_json::Value::String(v.clone()));
    }
    obj.insert(number.0.to_owned(), serde_json::Value::Number(number.1.into()));
    serde_json::to_string(&serde_json::Value::Object(obj)).map_err(|e| e.to_string())
}

/// The UTF-8 bytes of a string.
pub fn bytes_of(s: &str) -> (r: Vec<u8>)
    ensures
        r@ == encode_utf8(s@),
{
    let b = s.as_bytes();
    let mut out: Vec<u8> = Vec::new();
    let mut i: usize = 0;
    while i < b.len()
        invariant
            i <= b.len(),
            b@ == encode_utf8(s@),
            out@ == b@.take(i as int),
        decreases b.len() - i,
    {
        out.push(b[i]);
        assert(b@.take(i + 1) =~= b@.take(i as int).push(b@[i as int]));
        i += 1;
    }
    assert(b@.take(i as int) =~= b@);
    out
}

/// Bytes `[s, e)` of a buffer, copied.
pub fn bytes_range(buf: &[u8], s: usize, e: usize) -> (r: Vec<u8>)
    requires
        s <= e <= buf.len(),
    ensures
        r@ == buf@.subrange(s as int, e as int),
{
    let mut out: Vec<u8> = Vec::new();
    let mut i = s;
    while i < e
        invariant
            s <= i <= e <= buf.len(),
            out@ == buf@.subrange(s as int, i as int),
        decreases e - i,
    {
        out.push(buf[i]);
        assert(buf@.subrange(s as int, i + 1) =~= buf@.subrange(s as int, i as int).push(buf@[i as int]));
        i += 1;
    }
    out
}

fn append_bytes(out: &mut Vec<u8>, more: &[u8])
    ensures
        final(out)@ == old(out)@ + more@,
{
    let mut i: usize = 0;
    let ghost start = out@;
    while i < more.len()
        invariant
            i <= more.len(),
            out@ == start + more@.take(i as int),
        decreases more.len() - i,
    {
        out.push(more[i]);
        assert(start + more@.take(i + 1) =~= (start + more@.take(i as int)).push(more@[i as int]));
        i += 1;
    }
    assert(more@.take(i as int) =~= more@);
}

/* ------------------------------ decoding ------------------------------ */

/// A fully decoded session log.
pub struct DecodedView {
    pub encoding: LogEncoding,
    pub header: HeaderView,
    /// The header line as read.
    pub header_line: Seq<char>,
    /// The committed event lines after the header.
    pub events: Seq<Seq<char>>,
    /// Their stored bytes, each line newline-terminated.
    pub event_bytes: Seq<u8>,
    /// The source's frames after the first, when a copy may reuse them.
    pub tail_frames: Option<Seq<u8>>,
}

/// The header and committed events of decoded plaintext.
pub open spec fn read_text(text: Seq<char>, generation: nat) -> Result<(HeaderView, Seq<Seq<char>>), CodecErrorView> {
    match header_piece(text) {
        None => Err(CodecErrorView::MissingHeader),
        Some(h) => match parse_header_spec(h, generation) {
            Err(e) => Err(e),
            Ok(hv) => Ok((hv, committed_events(text))),
        },
    }
}

pub open spec fn decode_plain_spec(buf: Seq<u8>, generation: nat) -> Result<DecodedView, CodecErrorView> {
    if !valid_utf8(buf) {
        Err(CodecErrorView::UnsupportedEncoding("明文日志非 UTF-8: "@ + utf8_error_text(buf)))
    } else {
        match read_text(decode_utf8(buf), generation) {
            Err(e) => Err(e),
            Ok((hv, ev)) => Ok(
                DecodedView {
                    encoding: LogEncoding::Plain,
                    header: hv,
                    header_line: header_piece(decode_utf8(buf)).unwrap(),
                    events: ev,
                    event_bytes: encode_utf8(events_text(ev)),
                    tail_frames: None,
                },
            ),
        }
    }
}

/// Every frame decoded, in order, from frame `k` on; the first failure wins.
pub open spec fn decode_frames(buf: Seq<u8>, ranges: Seq<(int, int)>, k: int) -> Result<Seq<Seq<u8>>, Seq<char>>
    decreases ranges.len() - k,
{
    if k < 0 || k >= ranges.len() {
        Ok(Seq::empty())
    } else {
        match zstd_frame_plain(buf.subrange(ranges[k].0, ranges[k].1)) {
            Err(e) => Err(e),
            Ok(p) => match decode_frames(buf, ranges, k + 1) {
                Err(e) => Err(e),
                Ok(rest) => Ok(seq![p] + rest),
            },
        }
    }
}

/// The concatenation of byte strings.
pub open spec fn flatten(ps: Seq<Seq<u8>>) -> Seq<u8>
    decreases ps.len(),
{
    if ps.len() == 0 {
        Seq::empty()
    } else {
        flatten(ps.drop_last()) + ps.last()
    }
}

/// The source's later frames, reusable byte-for-byte only when frame 0
/// holds exactly the header line and everything after it is exactly the
/// committed events.
pub open spec fn reusable_tail_spec(
    buf: Seq<u8>,
    ranges: Seq<(int, int)>,
    frame0_len: nat,
    all: Seq<u8>,
    header_line: Seq<char>,
    events: Seq<u8>,
) -> Option<Seq<u8>> {
    let expected = encode_utf8(header_line).push(10u8);
    if ranges.len() < 2 || frame0_len != expected.len() {
        None
    } else if !(all.len() >= expected.len() && all.take(expected.len() as int) == expected) {
        None
    } else if all.skip(expected.len() as int) != events {
        None
    } else {
        Some(flatten(ranges.subrange(1, ranges.len() as int).map_values(|r: (int, int)| buf.subrange(r.0, r.1))))
    }
}

pub open spec fn decode_zstd_spec(buf: Seq<u8>, generation: nat) -> Result<DecodedView, CodecErrorView> {
    let ranges = frames_from(buf, 0);
    if ranges.len() == 0 {
        Err(CodecErrorView::FrameDecode("未发现 zstd 帧"@))
    } else {
        match decode_frames(buf, ranges, 0) {
            Err(e) => Err(CodecErrorView::FrameDecode(e)),
            Ok(ps) => {
                let all = flatten(ps);
                if !valid_utf8(all) {
                    Err(CodecErrorView::UnsupportedEncoding("zstd 明文非 UTF-8: "@ + utf8_error_text(all)))
                } else {
                    let text = decode_utf8(all);
                    match header_piece(text) {
                        None => Err(CodecErrorView::MissingHeader),
                        Some(h) => match parse_header_spec(h, generation) {
                            Err(e) => Err(e),
                            Ok(hv) => {
                                let ev = committed_events(text);
                                let eb = encode_utf8(events_text(ev));
                                Ok(
                                    DecodedView {
                                        encoding: LogEncoding::Zstd,
                                        header: hv,
                                        header_line: h,
                                        events: ev,
                                        event_bytes: eb,
                                        tail_frames: reusable_tail_spec(buf, ranges, ps[0].len(), all, h, eb),
                                    },
                                )
                            },
                        },
                    }
                }
            },
        }
    }
}

/// Parse a session log artifact of a known generation.
pub open spec fn decode_spec(buf: Seq<u8>, generation: nat) -> Result<DecodedView, CodecErrorView> {
    if buf.len() == 0 {
        Err(CodecErrorView::MissingHeader)
    } else if detect_encoding_spec(buf) == LogEncoding::Plain {
        decode_plain_spec(buf, generation)
    } else {
        decode_zstd_spec(buf, generation)
    }
}

/// A fully decoded session log: the header, the committed event lines and
/// their bytes, and the source's later frames when a copy may reuse them.
#[derive(Debug)]
pub struct DecodedLog {
    pub encoding: LogEncoding,
    pub header: SessionHeaderRecord,
    /// Event records following the header.
    pub event_count: usize,
    pub event_lines: Vec<String>,
    pub events: Vec<u8>,
    pub tail_frames: Option<Vec<u8>>,
}

pub open spec fn opt_bytes_view(o: Option<Vec<u8>>) -> Option<Seq<u8>> {
    match o {
        Some(v) => Some(v@),
        None => None,
    }
}

impl DecodedLog {
    pub open spec fn view(&self) -> DecodedView {
        DecodedView {
            encoding: self.encoding,
            header: self.header.view(),
            header_line: self.header.line@,
            events: views(self.event_lines@),
            event_bytes: self.events@,
            tail_frames: opt_bytes_view(self.tail_frames),
        }
    }

    pub open spec fn wf(&self) -> bool {
        self.event_count == self.event_lines@.len()
    }
}

pub open spec fn decoded_result_view(r: Result<DecodedLog, CodecError>) -> Result<DecodedView, CodecErrorView> {
    match r {
        Ok(d) => Ok(d.view()),
        Err(e) => Err(e.view()),
    }
}

fn read_text_exec(text: &String, generation: u64) -> (r: Result<(SessionHeaderRecord, Vec<String>, Vec<u8>), CodecError>)
    ensures
        match r {
            Ok((h, ev, eb)) => read_text(text@, generation as nat) == Ok::<(HeaderView, Seq<Seq<char>>), CodecErrorView>((h.view(), views(ev@)))
                && eb@ == encode_utf8(events_text(views(ev@))) && h.line@ == header_piece(text@).unwrap(),
            Err(e) => read_text(text@, generation as nat) == Err::<(HeaderView, Seq<Seq<char>>), CodecErrorView>(e.view()),
        },
{
    let c = chars_of(text.as_str());
    let (first, events) = split_committed(&c);
    let line = match first {
        Some(l) => l,
        None => {
            return Err(CodecError::MissingHeader);
        },
    };
    let header = parse_header(line.as_str(), generation)?;
    let et = string_of(&encode_events(&events));
    let eb = bytes_of(et.as_str());
    Ok((header, events, eb))
}

fn unsupported_encoding(prefix: &str, e: String) -> (r: CodecError)
    ensures
        r.view() == CodecErrorView::UnsupportedEncoding(prefix@ + e@),
{
    CodecError::UnsupportedEncoding(string_of(&concat_chars(&chars_of(prefix), &chars_of(e.as_str()))))
}

/// Parse a plaintext session log of a known generation.
pub fn decode_plaintext(buf: &[u8], generation: u64) -> (r: Result<DecodedLog, CodecError>)
    ensures
        decoded_result_view(r) == decode_plain_spec(buf@, generation as nat),
        match r {
            Ok(d) => d.wf(),
            Err(_) => true,
        },
{
    let text = match text_from_utf8(buf) {
        Ok(t) => t,
        Err(e) => {
            return Err(unsupported_encoding("明文日志非 UTF-8: ", e));
        },
    };
    let (header, event_lines, events) = read_text_exec(&text, generation)?;
    let event_count = event_lines.len();
    Ok(DecodedLog { encoding: LogEncoding::Plain, header, event_count, event_lines, events, tail_frames: None })
}

pub open spec fn ranges_view(r: Seq<(usize, usize)>) -> Seq<(int, int)> {
    r.map_values(|p: (usize, usize)| (p.0 as int, p.1 as int))
}

/// The source's frames after the first, reusable byte-for-byte: `Some` only
/// when frame 0 decodes to exactly the header line and the plaintext after
/// it is exactly the committed events — any other shape would either break
/// the header-frame rule or resurrect a torn record.
pub fn reusable_tail_frames(
    buf: &[u8],
    ranges: &Vec<(usize, usize)>,
    frame0_len: usize,
    all: &Vec<u8>,
    header_line: &str,
    events: &Vec<u8>,
) -> (r: Option<Vec<u8>>)
    requires
        forall|k: int| 0 <= k < ranges@.len() ==> (#[trigger] ranges@[k]).0 <= ranges@[k].1 && ranges@[k].1 <= buf@.len(),
    ensures
        opt_bytes_view(r) == reusable_tail_spec(buf@, ranges_view(ranges@), frame0_len as nat, all@, header_line@, events@),
{
    let mut expected = bytes_of(header_line);
    expected.push(10u8);
    if ranges.len() < 2 || frame0_len != expected.len() {
        return None;
    }
    if all.len() < expected.len() {
        return None;
    }
    let head = bytes_range(all.as_slice(), 0, expected.len());
    if !bytes_eq(&head, &expected) {
        assert(all@.take(expected@.len() as int) =~= head@);
        return None;
    }
    assert(all@.take(expected@.len() as int) =~= head@);
    let rest = bytes_range(all.as_slice(), expected.len(), all.len());
    assert(rest@ =~= all@.skip(expected@.len() as int));
    if !bytes_eq(&rest, events) {
        return None;
    }
    let ghost rv = ranges_view(ranges@);
    let ghost later = rv.subrange(1, rv.len() as int).map_values(|q: (int, int)| buf@.subrange(q.0, q.1));
    let mut out: Vec<u8> = Vec::new();
    let mut k: usize = 1;
    assert(later.take(0) =~= Seq::<Seq<u8>>::empty());
    while k < ranges.len()
        invariant
            1 <= k <= ranges.len(),
            rv == ranges_view(ranges@),
            later == rv.subrange(1, rv.len() as int).map_values(|q: (int, int)| buf@.subrange(q.0, q.1)),
            forall|j: int| 0 <= j < ranges@.len() ==> (#[trigger] ranges@[j]).0 <= ranges@[j].1 && ranges@[j].1 <= buf@.len(),
            out@ == flatten(later.take(k - 1)),
        decreases ranges.len() - k,
    {
        let (s, e) = ranges[k];
        let piece = bytes_range(buf, s, e);
        assert(later[k - 1] == buf@.subrange(s as int, e as int));
        assert(later.take(k as int).drop_last() =~= later.take(k - 1));
        append_bytes(&mut out, &piece);
        k += 1;
    }
    assert(later.take(k - 1) =~= later);
    Some(out)
}

fn bytes_eq(a: &Vec<u8>, b: &Vec<u8>) -> (r: bool)
    ensures
        r == (a@ == b@),
{
    if a.len() != b.len() {
        return false;
    }
    let mut i: usize = 0;
    while i < a.len()
        invariant
            i <= a.len(),
            a.len() == b.len(),
            forall|j: int| 0 <= j < i ==> a@[j] == b@[j],
        decreases a.len() - i,
    {
        if a[i] != b[i] {
            return false;
        }
        i += 1;
    }
    assert(a@ =~= b@);
    true
}

fn frame_decode_err(msg: String) -> (r: CodecError)
    ensures
        r.view() == CodecErrorView::FrameDecode(msg@),
{
    CodecError::FrameDecode(msg)
}

/// Parse a zstd session log of a known generation: every frame decoded and
/// concatenated, the first line read as the header.
pub fn decode_zstd(buf: &[u8], generation: u64) -> (r: Result<DecodedLog, CodecError>)
    ensures
        decoded_result_view(r) == decode_zstd_spec(buf@, generation as nat),
        match r {
            Ok(d) => d.wf(),
            Err(_) => true,
        },
{
    let ranges = split_frames(buf);
    let ghost rv = ranges_view(ranges@);
    if ranges.len() == 0 {
        return Err(CodecError::FrameDecode("未发现 zstd 帧".to_owned()));
    }
    let mut all: Vec<u8> = Vec::new();
    let mut frame0_len: usize = 0;
    let mut k: usize = 0;
    let ghost mut plains: Seq<Seq<u8>> = Seq::empty();
    while k < ranges.len()
        invariant
            k <= ranges.len(),
            rv == ranges_view(ranges@),
            rv == frames_from(buf@, 0),
            forall|j: int| 0 <= j < ranges@.len() ==> (#[trigger] ranges@[j]).0 < ranges@[j].1 && ranges@[j].1 <= buf@.len(),
            plains.len() == k,
            decode_frames(buf@, rv, 0) == (match decode_frames(buf@, rv, k as int) {
                Ok(rest) => Ok(plains + rest),
                Err(e) => Err(e),
            }),
            all@ == flatten(plains),
            k > 0 ==> frame0_len == plains[0].len(),
        decreases ranges.len() - k,
    {
        let (s, e) = ranges[k];
        assert(rv[k as int] == (s as int, e as int));
        let frame = bytes_range(buf, s, e);
        let plain = match decode_frame(&frame) {
            Ok(p) => p,
            Err(msg) => {
                return Err(frame_decode_err(msg));
            },
        };
        if k == 0 {
            frame0_len = plain.len();
        }
        proof {
            assert(plains.push(plain@).drop_last() =~= plains);
            match decode_frames(buf@, rv, k + 1) {
                Ok(rest) => {
                    assert(plains + (seq![plain@] + rest) =~= plains.push(plain@) + rest);
                },
                Err(_) => {},
            }
            plains = plains.push(plain@);
        }
        append_bytes(&mut all, &plain);
        k += 1;
    }
    assert(decode_frames(buf@, rv, k as int) == Ok::<Seq<Seq<u8>>, Seq<char>>(Seq::empty()));
    assert(plains + Seq::<Seq<u8>>::empty() =~= plains);
    let text = match text_from_utf8(all.as_slice()) {
        Ok(t) => t,
        Err(e) => {
            return Err(unsupported_encoding("zstd 明文非 UTF-8: ", e));
        },
    };
    let (header, event_lines, events) = read_text_exec(&text, generation)?;
    let tail_frames = reusable_tail_frames(buf, &ranges, frame0_len, &all, header.line.as_str(), &events);
    let event_count = event_lines.len();
    Ok(DecodedLog { encoding: LogEncoding::Zstd, header, event_count, event_lines, events, tail_frames })
}

/// Parse a session log artifact of a known generation (the one its
/// canonical filename names).
pub fn decode(buf: &[u8], generation: u64) -> (r: Result<DecodedLog, CodecError>)
    ensures
        decoded_result_view(r) == decode_spec(buf@, generation as nat),
        match r {
            Ok(d) => d.wf(),
            Err(_) => true,
        },
{
    if buf.len() == 0 {
        return Err(CodecError::MissingHeader);
    }
    match detect_encoding(buf) {
        LogEncoding::Plain => decode_plaintext(buf, generation),
        LogEncoding::Zstd => decode_zstd(buf, generation),
    }
}

/// The first frame holds exactly one newline-terminated line.
pub open spec fn lone_line(p: Seq<u8>) -> bool {
    &&& p.len() > 0
    &&& p.last() == 10u8
    &&& forall|i: int| 0 <= i < p.len() - 1 ==> p[i] != 10u8
}

pub open spec fn header_frame_alone_spec(buf: Seq<u8>) -> Result<(), CodecErrorView> {
    if detect_encoding_spec(buf) == LogEncoding::Plain {
        Ok(())
    } else {
        let r = frames_from(buf, 0);
        if r.len() == 0 {
            Err(CodecErrorView::FrameDecode("副本没有 zstd 帧"@))
        } else {
            match zstd_frame_plain(buf.subrange(r[0].0, r[0].1)) {
                Err(e) => Err(CodecErrorView::FrameDecode(e)),
                Ok(p) => if lone_line(p) {
                    Ok(())
                } else {
                    Err(CodecErrorView::FrameDecode("副本首个 zstd 帧不是单独的 header 行"@))
                },
            }
        }
    }
}

/// DSH's first-frame rule, as a publish gate: a zstd log's first frame must
/// decode to exactly one newline-terminated line. Plaintext has no frames.
pub fn header_frame_is_alone(buf: &[u8]) -> (r: Result<(), CodecError>)
    ensures
        match r {
            Ok(()) => header_frame_alone_spec(buf@) == Ok::<(), CodecErrorView>(()),
            Err(e) => header_frame_alone_spec(buf@) == Err::<(), CodecErrorView>(e.view()),
        },
{
    if detect_encoding(buf) == LogEncoding::Plain {
        return Ok(());
    }
    let ranges = split_frames(buf);
    if ranges.len() == 0 {
        return Err(CodecError::FrameDecode("副本没有 zstd 帧".to_owned()));
    }
    let (s, e) = ranges[0];
    assert(ranges_view(ranges@)[0] == (s as int, e as int));
    let frame = bytes_range(buf, s, e);
    let first = match decode_frame(&frame) {
        Ok(p) => p,
        Err(msg) => {
            return Err(frame_decode_err(msg));
        },
    };
    let n = first.len();
    let mut alone = n > 0 && first[n - 1] == 10u8;
    let mut i: usize = 0;
    while alone && i + 1 < n
        invariant
            n == first.len(),
            alone ==> n > 0 && first@[n - 1] == 10u8,
            alone ==> forall|j: int| 0 <= j < i ==> first@[j] != 10u8,
            !alone ==> !lone_line(first@),
        decreases n - i,
    {
        if first[i] == 10u8 {
            alone = false;
        }
        i += 1;
    }
    if !alone {
        return Err(CodecError::FrameDecode("副本首个 zstd 帧不是单独的 header 行".to_owned()));
    }
    Ok(())
}

/* ---------------------------- event counting ---------------------------- */

pub open spec fn w_text_chunks() -> Seq<char> {
    seq!['t', 'e', 'x', 't', '-', 'c', 'h', 'u', 'n', 'k', 's']
}

pub open spec fn w_reasoning_chunks() -> Seq<char> {
    seq!['r', 'e', 'a', 's', 'o', 'n', 'i', 'n', 'g', '-', 'c', 'h', 'u', 'n', 'k', 's']
}

pub open spec fn w_tool_call_chunks() -> Seq<char> {
    seq!['t', 'o', 'o', 'l', '-', 'c', 'a', 'l', 'l', '-', 'c', 'h', 'u', 'n', 'k', 's']
}

/// The v0/v1 row types that carry several logical events in one row.
pub open spec fn is_packed(kind: Seq<char>) -> bool {
    kind == w_text_chunks() || kind == w_reasoning_chunks() || kind == w_tool_call_chunks()
}

pub open spec fn row_error(index: nat, detail: Seq<char>) -> CodecErrorView {
    CodecErrorView::RowShape("第 "@ + dec_digits(index) + " 行"@ + detail)
}

/// `(first event seq, events carried)` for one stored row: a packed row
/// starts at `seq0` and carries its non-empty payload's length, any other
/// row starts at `seq` and carries one event.
pub open spec fn row_shape_spec(f: RowFactsView, index: nat) -> Result<(nat, nat), CodecErrorView> {
    match f.kind {
        None => Err(row_error(index, "缺少 type"@)),
        Some(kind) => if !is_packed(kind) {
            match f.seq {
                None => Err(row_error(index, "缺少 seq"@)),
                Some(v) => if v > usize::MAX {
                    Err(row_error(index, "seq 超出整数范围"@))
                } else {
                    Ok((v, 1))
                },
            }
        } else {
            match f.seq0 {
                None => Err(row_error(index, "缺少 seq0"@)),
                Some(v) => if v > usize::MAX {
                    Err(row_error(index, "seq0 超出整数范围"@))
                } else {
                    let payload = if kind == w_tool_call_chunks() {
                        f.args_len
                    } else {
                        f.texts_len
                    };
                    match payload {
                        Some(n) => if n > 0 {
                            Ok((v, n))
                        } else {
                            Err(row_error(index, kind + " 的 payload 不是非空数组"@))
                        },
                        None => Err(row_error(index, kind + " 的 payload 不是非空数组"@)),
                    }
                },
            }
        },
    }
}

/// The three packed row kinds of v0/v1 logs each start at their `seq0` and
/// carry as many logical events as their non-empty payload holds: the
/// `args` of a `tool-call-chunks` row, the `texts` of a `text-chunks` or
/// `reasoning-chunks` row. Any other kind of row starts at its `seq` and
/// carries one event.
pub proof fn lemma_row_shapes(f: RowFactsView, index: nat)
    ensures
        ((f.kind == Some("text-chunks"@) || f.kind == Some("reasoning-chunks"@)) && f.seq0 is Some && f.seq0->0
            <= usize::MAX && f.texts_len is Some && f.texts_len->0 > 0) ==> row_shape_spec(f, index) == Ok::<
            (nat, nat),
            CodecErrorView,
        >((f.seq0->0, f.texts_len->0)),
        (f.kind == Some("tool-call-chunks"@) && f.seq0 is Some && f.seq0->0 <= usize::MAX && f.args_len is Some
            && f.args_len->0 > 0) ==> row_shape_spec(f, index) == Ok::<(nat, nat), CodecErrorView>(
            (f.seq0->0, f.args_len->0),
        ),
        (f.kind is Some && f.kind->0 != "text-chunks"@ && f.kind->0 != "reasoning-chunks"@ && f.kind->0
            != "tool-call-chunks"@ && f.seq is Some && f.seq->0 <= usize::MAX) ==> row_shape_spec(f, index) == Ok::<
            (nat, nat),
            CodecErrorView,
        >((f.seq->0, 1)),
        f.kind is None ==> row_shape_spec(f, index) is Err,
        ((f.kind == Some("text-chunks"@) || f.kind == Some("reasoning-chunks"@)) && !(f.texts_len is Some
            && f.texts_len->0 > 0)) ==> row_shape_spec(f, index) is Err,
        (f.kind == Some("tool-call-chunks"@) && !(f.args_len is Some && f.args_len->0 > 0)) ==> row_shape_spec(
            f,
            index,
        ) is Err,
        (f.kind is Some && f.kind->0 != "text-chunks"@ && f.kind->0 != "reasoning-chunks"@ && f.kind->0
            != "tool-call-chunks"@ && f.seq is None) ==> row_shape_spec(f, index) is Err,
{
    reveal_strlit("text-chunks");
    reveal_strlit("reasoning-chunks");
    reveal_strlit("tool-call-chunks");
    assert("text-chunks"@ =~= w_text_chunks());
    assert("reasoning-chunks"@ =~= w_reasoning_chunks());
    assert("tool-call-chunks"@ =~= w_tool_call_chunks());
}

fn row_err(index: usize, detail: &[char]) -> (r: CodecError)
    ensures
        r.view() == row_error(index as nat, detail@),
{
    let a = cat3(&chars_of("第 "), &decimal_chars(index as u64), &chars_of(" 行"));
    CodecError::RowShape(string_of(&concat_chars(&a, detail)))
}

/// The count-relevant shape of one stored row.
pub fn row_shape(f: &RowFacts, index: usize) -> (r: Result<(usize, usize), CodecError>)
    ensures
        match r {
            Ok((s, c)) => row_shape_spec(f.view(), index as nat) == Ok::<(nat, nat), CodecErrorView>((s as nat, c as nat)),
            Err(e) => row_shape_spec(f.view(), index as nat) == Err::<(nat, nat), CodecErrorView>(e.view()),
        },
{
    let kind = match &f.kind {
        Some(k) => chars_of(k.as_str()),
        None => {
            return Err(row_err(index, &chars_of("缺少 type")));
        },
    };
    let tc = vec!['t', 'e', 'x', 't', '-', 'c', 'h', 'u', 'n', 'k', 's'];
    let rc = vec!['r', 'e', 'a', 's', 'o', 'n', 'i', 'n', 'g', '-', 'c', 'h', 'u', 'n', 'k', 's'];
    let cc = vec!['t', 'o', 'o', 'l', '-', 'c', 'a', 'l', 'l', '-', 'c', 'h', 'u', 'n', 'k', 's'];
    assert(tc@ =~= w_text_chunks());
    assert(rc@ =~= w_reasoning_chunks());
    assert(cc@ =~= w_tool_call_chunks());
    let is_tool = chars_eq(&kind, &cc);
    let packed = chars_eq(&kind, &tc) || chars_eq(&kind, &rc) || is_tool;
    if !packed {
        return match f.seq {
            None => Err(row_err(index, &chars_of("缺少 seq"))),
            Some(v) => if v > usize::MAX as u64 {
                Err(row_err(index, &chars_of("seq 超出整数范围")))
            } else {
                Ok((v as usize, 1))
            },
        };
    }
    let v = match f.seq0 {
        None => {
            return Err(row_err(index, &chars_of("缺少 seq0")));
        },
        Some(v) => v,
    };
    if v > usize::MAX as u64 {
        return Err(row_err(index, &chars_of("seq0 超出整数范围")));
    }
    let payload = if is_tool {
        f.args_len
    } else {
        f.texts_len
    };
    match payload {
        Some(n) => {
            if n > 0 {
                return Ok((v as usize, n));
            }
        },
        None => {},
    }
    let d = concat_chars(&kind, &chars_of(" 的 payload 不是非空数组"));
    Err(row_err(index, &d))
}

/// A line without the `\r` of a `\r\n` ending, as `str::lines` yields it.
pub open spec fn strip_cr(l: Seq<char>) -> Seq<char> {
    if l.len() > 0 && l.last() == '\r' {
        l.drop_last()
    } else {
        l
    }
}

/// The logical event count of rows `k..`, given `count` events before them.
pub open spec fn count_from(lines: Seq<Seq<char>>, k: int, count: nat) -> Result<nat, CodecErrorView>
    decreases lines.len() - k,
{
    if k < 0 || k >= lines.len() {
        Ok(count)
    } else {
        let line = strip_cr(lines[k]);
        if is_blank(line) {
            count_from(lines, k + 1, count)
        } else {
            match json_row_facts(line) {
                Err(e) => Err(CodecErrorView::RowShape("第 "@ + dec_digits(k as nat) + " 行不是 JSON: "@ + e)),
                Ok(f) => match row_shape_spec(f, k as nat) {
                    Err(e) => Err(e),
                    Ok((seq, carries)) => if seq != count {
                        Err(
                            CodecErrorView::RowShape(
                                "第 "@ + dec_digits(k as nat) + " 行的 seq 是 "@ + dec_digits(seq) + "，但此前已有 "@
                                    + dec_digits(count) + " 个事件（DSH 会判为 seq gap，拒绝该日志）"@,
                            ),
                        )
                    } else if count + carries > usize::MAX {
                        Err(CodecErrorView::RowShape("事件计数溢出"@))
                    } else {
                        count_from(lines, k + 1, count + carries)
                    },
                },
            }
        }
    }
}

/// How the count moves over one row: a blank line is skipped; a row that
/// reads as JSON with a valid shape must start exactly at the events
/// counted so far (no gap, no overlap), and the count then advances by the
/// events the row carries.
pub proof fn lemma_count_step(lines: Seq<Seq<char>>, k: int, count: nat)
    requires
        0 <= k < lines.len(),
    ensures
        is_blank(strip_cr(lines[k])) ==> count_from(lines, k, count) == count_from(lines, k + 1, count),
        ({
            let line = strip_cr(lines[k]);
            (!is_blank(line) && json_row_facts(line) is Ok && row_shape_spec(json_row_facts(line)->Ok_0, k as nat) is Ok
                && count_from(lines, k, count) is Ok) ==> {
                let (first, carries) = row_shape_spec(json_row_facts(line)->Ok_0, k as nat)->Ok_0;
                &&& first == count
                &&& count_from(lines, k, count) == count_from(lines, k + 1, count + carries)
            }
        }),
{
}

/// The inherited-prefix length a fork of a log must record: its logical
/// event count. Every row's `seq` must equal the events before it; a packed
/// row advances the count by its payload length, any other row by one.
pub fn inherited_event_count(lines: &Vec<String>) -> (r: Result<usize, CodecError>)
    ensures
        match r {
            Ok(n) => count_from(views(lines@), 0, 0) == Ok::<nat, CodecErrorView>(n as nat),
            Err(e) => count_from(views(lines@), 0, 0) == Err::<nat, CodecErrorView>(e.view()),
        },
{
    let ghost lv = views(lines@);
    let mut count: usize = 0;
    let mut k: usize = 0;
    while k < lines.len()
        invariant
            k <= lines.len(),
            lv == views(lines@),
            lv.len() == lines.len(),
            count_from(lv, 0, 0) == count_from(lv, k as int, count as nat),
        decreases lines.len() - k,
    {
        assert(lv[k as int] == lines@[k as int]@);
        let raw = chars_of(lines[k].as_str());
        let line = if raw.len() > 0 && raw[raw.len() - 1] == '\r' {
            crate::text::slice_prefix(&raw, raw.len() - 1)
        } else {
            crate::text::slice_prefix(&raw, raw.len())
        };
        assert(raw@.take(raw@.len() as int) =~= raw@);
        assert(raw@.len() > 0 ==> raw@.take(raw@.len() - 1) =~= raw@.drop_last());
        if !is_blank_exec(&line) {
            let text = string_of(&line);
            let facts = match parse_json_row(text.as_str()) {
                Ok(f) => f,
                Err(e) => {
                    let a = cat3(&chars_of("第 "), &decimal_chars(k as u64), &chars_of(" 行不是 JSON: "));
                    return Err(CodecError::RowShape(string_of(&concat_chars(&a, &chars_of(e.as_str())))));
                },
            };
            let (seq, carries) = row_shape(&facts, k)?;
            if seq != count {
                let a = cat3(&chars_of("第 "), &decimal_chars(k as u64), &chars_of(" 行的 seq 是 "));
                let b = cat3(&decimal_chars(seq as u64), &chars_of("，但此前已有 "), &decimal_chars(count as u64));
                let c = cat3(&a, &b, &chars_of(" 个事件（DSH 会判为 seq gap，拒绝该日志）"));
                assert(c@ =~= "第 "@ + dec_digits(k as nat) + " 行的 seq 是 "@ + dec_digits(seq as nat) + "，但此前已有 "@
                    + dec_digits(count as nat) + " 个事件（DSH 会判为 seq gap，拒绝该日志）"@);
                return Err(CodecError::RowShape(string_of(&c)));
            }
            match count.checked_add(carries) {
                Some(n) => {
                    count = n;
                },
                None => {
                    return Err(CodecError::RowShape("事件计数溢出".to_owned()));
                },
            }
        }
        k += 1;
    }
    Ok(count)
}

/* ------------------------------ copying ------------------------------ */

/// The rewrite a copy applies to a session header.
#[derive(Debug)]
pub struct Reidentification {
    pub new_id: String,
    /// Lineage: the source session id this copy is forked from.
    pub parent: String,
    /// Exact inherited prefix length (`seedLength`).
    pub inherited: usize,
}

pub open spec fn k_seed_length() -> Seq<char> {
    seq!['s', 'e', 'e', 'd', 'L', 'e', 'n', 'g', 't', 'h']
}

/// The re-identified header line: refused for a generation without a
/// header fork marker, else the source header with `id`, `parentSession`
/// and `seedLength` set.
pub open spec fn rewrite_header_spec(h: HeaderView, line: Seq<char>, new_id: Seq<char>, parent: Seq<char>, inherited: nat) -> Result<
    Seq<char>,
    CodecErrorView,
> {
    if h.generation > HEADER_FORK_MAX_GENERATION {
        Err(
            CodecErrorView::MalformedHeader(
                "v"@ + dec_digits(h.generation)
                    + " 会话的继承前缀写在日志体内（session/end-seed 事件），header 里没有 seedLength 字段"@,
            ),
        )
    } else {
        match json_with_fields(line, seq![(k_id(), new_id), (k_parent(), parent)], (k_seed_length(), inherited)) {
            Ok(s) => Ok(s),
            Err(e) => Err(CodecErrorView::MalformedHeader(e)),
        }
    }
}

/// Produce a header line re-identified for a copy; every other field
/// survives untouched.
pub fn rewrite_header_line(header: &SessionHeaderRecord, reid: &Reidentification) -> (r: Result<String, CodecError>)
    ensures
        string_err_view(r) == rewrite_header_spec(header.view(), header.line@, reid.new_id@, reid.parent@, reid.inherited as nat),
{
    if !header.supports_header_fork() {
        let a = concat_chars(&chars_of("v"), &decimal_chars(header.generation));
        let b = concat_chars(&a, &chars_of(" 会话的继承前缀写在日志体内（session/end-seed 事件），header 里没有 seedLength 字段"));
        return Err(CodecError::MalformedHeader(string_of(&b)));
    }
    let kid = vec!['i', 'd'];
    let kpar = vec!['p', 'a', 'r', 'e', 'n', 't', 'S', 'e', 's', 's', 'i', 'o', 'n'];
    let kseed = vec!['s', 'e', 'e', 'd', 'L', 'e', 'n', 'g', 't', 'h'];
    assert(kid@ =~= k_id());
    assert(kpar@ =~= k_parent());
    assert(kseed@ =~= k_seed_length());
    let mut strings: Vec<(String, String)> = Vec::new();
    strings.push((string_of(&kid), reid.new_id.clone()));
    strings.push((string_of(&kpar), reid.parent.clone()));
    assert(pairs_view(strings@) =~= seq![(k_id(), reid.new_id@), (k_parent(), reid.parent@)]);
    let seed = string_of(&kseed);
    match set_json_fields(header.line.as_str(), &strings, (seed.as_str(), reid.inherited as u64)) {
        Ok(s) => Ok(s),
        Err(e) => Err(CodecError::MalformedHeader(e)),
    }
}

pub open spec fn string_err_view(r: Result<String, CodecError>) -> Result<Seq<char>, CodecErrorView> {
    match r {
        Ok(s) => Ok(s@),
        Err(e) => Err(e.view()),
    }
}

pub open spec fn bytes_err_view(r: Result<Vec<u8>, CodecError>) -> Result<Seq<u8>, CodecErrorView> {
    match r {
        Ok(v) => Ok(v@),
        Err(e) => Err(e.view()),
    }
}

/// The copied artifact: the new header line plus the source's events,
/// framed to match the source's encoding. A zstd copy always puts the header
/// in its own first frame, then the source's later frames when reusable, a
/// fresh frame of the committed events otherwise, or nothing for a
/// header-only log.
pub open spec fn build_copy_spec(d: DecodedView, line: Seq<char>) -> Result<Seq<u8>, CodecErrorView> {
    let header = encode_utf8(line).push(10u8);
    match d.encoding {
        LogEncoding::Plain => Ok(header + d.event_bytes),
        LogEncoding::Zstd => match zstd_encoded(header, 3) {
            Err(e) => Err(CodecErrorView::FrameDecode("编码会话帧失败: "@ + e)),
            Ok(h) => match d.tail_frames {
                Some(t) => Ok(h + t),
                None => if d.event_bytes.len() == 0 {
                    Ok(h)
                } else {
                    match zstd_encoded(d.event_bytes, 3) {
                        Err(e) => Err(CodecErrorView::FrameDecode("编码事件帧失败: "@ + e)),
                        Ok(ev) => Ok(h + ev),
                    }
                },
            },
        },
    }
}

impl DecodedLog {
    /// The committed event bytes, as stored.
    pub fn event_bytes(&self) -> (r: &[u8])
        ensures
            r@ == self.events@,
    {
        self.events.as_slice()
    }

    /// Assemble the copied artifact from a new header line.
    pub fn build_copy(&self, new_header_line: &str) -> (r: Result<Vec<u8>, CodecError>)
        ensures
            bytes_err_view(r) == build_copy_spec(self.view(), new_header_line@),
    {
        let mut header = bytes_of(new_header_line);
        header.push(10u8);
        match self.encoding {
            LogEncoding::Plain => {
                append_bytes(&mut header, &self.events);
                Ok(header)
            },
            LogEncoding::Zstd => {
                let mut out = match encode_frame(&header, 3) {
                    Ok(v) => v,
                    Err(e) => {
                        return Err(CodecError::FrameDecode(string_of(&concat_chars(&chars_of("编码会话帧失败: "), &chars_of(e.as_str())))));
                    },
                };
                match &self.tail_frames {
                    Some(t) => {
                        append_bytes(&mut out, t);
                    },
                    None => {
                        if self.events.len() > 0 {
                            let ev = match encode_frame(&self.events, 3) {
                                Ok(v) => v,
                                Err(e) => {
                                    return Err(CodecError::FrameDecode(string_of(&concat_chars(&chars_of("编码事件帧失败: "), &chars_of(e.as_str())))));
                                },
                            };
                            append_bytes(&mut out, &ev);
                        }
                    },
                }
                Ok(out)
            },
        }
    }
}

/* -------------------------------- laws -------------------------------- */

proof fn lemma_split_nl_append(s: Seq<char>, t: Seq<char>)
    requires
        forall|i: int| 0 <= i < t.len() ==> t[i] != '\n',
    ensures
        split_nl(s + t) == split_nl(s).update(split_nl(s).len() - 1, split_nl(s).last() + t),
        split_nl(s + t).len() == split_nl(s).len(),
    decreases t.len(),
{
    lemma_split_nl_len(s);
    if t.len() == 0 {
        assert(s + t =~= s);
        assert(split_nl(s).last() + t =~= split_nl(s).last());
        assert(split_nl(s).update(split_nl(s).len() - 1, split_nl(s).last()) =~= split_nl(s));
    } else {
        let u = t.drop_last();
        lemma_split_nl_append(s, u);
        assert((s + t).drop_last() =~= s + u);
        assert((s + t).last() == t.last());
        let p = split_nl(s);
        assert(split_nl(s + u).last() == p.last() + u);
        assert(split_nl(s + t) =~= p.update(p.len() - 1, p.last() + t)) by {
            assert((p.last() + u).push(t.last()) =~= p.last() + t);
        }
    }
}

/// A record torn by a crash mid-append is never committed: text that ends
/// in a newline reads the same header and committed events with or without
/// a partial final line after it.
pub proof fn lemma_torn_record_is_not_committed(s: Seq<char>, torn: Seq<char>)
    requires
        s.len() > 0,
        s.last() == '\n',
        forall|i: int| 0 <= i < torn.len() ==> torn[i] != '\n',
    ensures
        committed_events(s + torn) == committed_events(s),
        header_piece(s + torn) == header_piece(s),
{
    lemma_split_nl_append(s, torn);
    lemma_split_nl_len(s.drop_last());
    let p = split_nl(s);
    assert(p == split_nl(s.drop_last()).push(Seq::<char>::empty()));
    assert(p.len() >= 2);
    let q = split_nl(s + torn);
    assert(q.subrange(1, q.len() - 1) =~= p.subrange(1, p.len() - 1));
    assert(q[0] == p[0]);
}

proof fn lemma_encode_utf8_concat(a: Seq<char>, b: Seq<char>)
    ensures
        encode_utf8(a + b) == encode_utf8(a) + encode_utf8(b),
    decreases a.len(),
{
    if a.len() == 0 {
        assert(a + b =~= b);
        assert(encode_utf8(a) + encode_utf8(b) =~= encode_utf8(b));
    } else {
        lemma_encode_utf8_concat(a.drop_first(), b);
        assert((a + b).drop_first() =~= a.drop_first() + b);
        assert((a + b)[0] == a[0]);
        assert(encode_utf8(a + b) =~= encode_utf8(a) + encode_utf8(b));
    }
}

proof fn lemma_encode_newline()
    ensures
        encode_utf8(seq!['\n']) == seq![10u8],
{
    let c = '\n';
    crate::text::lemma_char_code(c);
    assert((c as u32) == 10u32);
    assert((10u32 & 0x7Fu32) == 10u32) by (bit_vector);
    assert(vstd::utf8::encode_scalar(10u32) =~= seq![10u8]);
    assert(seq![c].drop_first() =~= Seq::<char>::empty());
    assert(seq![c][0] == c);
    assert(encode_utf8(Seq::<char>::empty()) =~= Seq::<u8>::empty());
    assert(encode_utf8(seq![c]) =~= seq![10u8]);
}

/// No piece between newlines holds a newline.
proof fn lemma_split_nl_pieces(s: Seq<char>)
    ensures
        forall|k: int, j: int| 0 <= k < split_nl(s).len() && 0 <= j < split_nl(s)[k].len() ==> #[trigger] split_nl(s)[k][j]
            != '\n',
    decreases s.len(),
{
    if s.len() > 0 {
        lemma_split_nl_pieces(s.drop_last());
        lemma_split_nl_len(s.drop_last());
        let p = split_nl(s.drop_last());
        if s.last() != '\n' {
            assert forall|k: int, j: int| 0 <= k < split_nl(s).len() && 0 <= j < split_nl(s)[k].len() implies #[trigger] split_nl(
                s,
            )[k][j] != '\n' by {
                if k == p.len() - 1 {
                    if j < p.last().len() {
                        assert(split_nl(s)[k][j] == p[k][j]);
                    }
                } else {
                    assert(split_nl(s)[k] == p[k]);
                }
            }
        } else {
            assert forall|k: int, j: int| 0 <= k < split_nl(s).len() && 0 <= j < split_nl(s)[k].len() implies #[trigger] split_nl(
                s,
            )[k][j] != '\n' by {
                if k < p.len() {
                    assert(split_nl(s)[k] == p[k]);
                }
            }
        }
    }
}

/// Every line `nonblank` keeps is non-blank and one of the input lines.
proof fn lemma_nonblank_elems(s: Seq<Seq<char>>)
    ensures
        forall|i: int| 0 <= i < nonblank(s).len() ==> !is_blank(#[trigger] nonblank(s)[i]) && s.contains(nonblank(s)[i]),
        nonblank(s).len() <= s.len(),
    decreases s.len(),
{
    if s.len() > 0 {
        lemma_nonblank_elems(s.drop_last());
        let n = nonblank(s.drop_last());
        assert forall|i: int| 0 <= i < nonblank(s).len() implies !is_blank(#[trigger] nonblank(s)[i]) && s.contains(
            nonblank(s)[i],
        ) by {
            if i < n.len() {
                assert(nonblank(s)[i] == n[i]);
                let j = choose|j: int| 0 <= j < s.drop_last().len() && s.drop_last()[j] == n[i];
                assert(s[j] == n[i]);
            } else {
                assert(nonblank(s)[i] == s.last());
                assert(s[s.len() - 1] == s.last());
            }
        }
    }
}

proof fn lemma_nonblank_id(s: Seq<Seq<char>>)
    requires
        forall|i: int| 0 <= i < s.len() ==> !is_blank(#[trigger] s[i]),
    ensures
        nonblank(s) == s,
    decreases s.len(),
{
    if s.len() > 0 {
        lemma_nonblank_id(s.drop_last());
        assert(s.drop_last().push(s.last()) =~= s);
    }
}

proof fn lemma_events_text_concat(a: Seq<Seq<char>>, b: Seq<Seq<char>>)
    ensures
        events_text(a + b) == events_text(a) + events_text(b),
    decreases b.len(),
{
    if b.len() == 0 {
        assert(a + b =~= a);
        assert(events_text(a) + events_text(b) =~= events_text(a));
    } else {
        lemma_events_text_concat(a, b.drop_last());
        assert((a + b).drop_last() =~= a + b.drop_last());
        assert((a + b).last() == b.last());
        assert(events_text(a + b) =~= events_text(a) + events_text(b));
    }
}

/// Lines without newlines, each stored with its newline, split back into
/// the same lines and an empty tail.
proof fn lemma_split_events_text(ev: Seq<Seq<char>>)
    requires
        forall|k: int, j: int| 0 <= k < ev.len() && 0 <= j < ev[k].len() ==> #[trigger] ev[k][j] != '\n',
    ensures
        split_nl(events_text(ev)) == ev.push(Seq::<char>::empty()),
    decreases ev.len(),
{
    if ev.len() == 0 {
        assert(split_nl(Seq::<char>::empty()) =~= seq![Seq::<char>::empty()]);
        assert(ev.push(Seq::<char>::empty()) =~= seq![Seq::<char>::empty()]);
    } else {
        let d = ev.drop_last();
        let l = ev.last();
        assert forall|k: int, j: int| 0 <= k < d.len() && 0 <= j < d[k].len() implies #[trigger] d[k][j] != '\n' by {
            assert(d[k] == ev[k]);
        }
        lemma_split_events_text(d);
        let x = events_text(d);
        assert forall|j: int| 0 <= j < l.len() implies l[j] != '\n' by {
            assert(ev[ev.len() - 1] == l);
            assert(ev[ev.len() - 1][j] != '\n');
        }
        lemma_split_nl_append(x, l);
        let t = events_text(ev);
        assert(t == x + l + seq!['\n']);
        assert(t.drop_last() =~= x + l);
        assert(t.last() == '\n');
        let p = split_nl(x);
        assert(p =~= d.push(Seq::<char>::empty()));
        assert(p.last() + l =~= l);
        assert(split_nl(x + l) =~= d.push(l));
        assert(d.push(l) =~= ev);
    }
}

/// The text of a copy — a new header line, then the committed events of
/// `text` as stored — is valid UTF-8 and reads back as that header line and
/// exactly those events.
pub proof fn lemma_copy_text(text: Seq<char>, line: Seq<char>)
    requires
        forall|j: int| 0 <= j < line.len() ==> line[j] != '\n',
        !is_blank(line),
    ensures
        ({
            let ev = committed_events(text);
            let out = encode_utf8(line).push(10u8) + encode_utf8(events_text(ev));
            &&& valid_utf8(out)
            &&& header_piece(decode_utf8(out)) == Some(line)
            &&& committed_events(decode_utf8(out)) == ev
        }),
{
    let p = split_nl(text);
    lemma_split_nl_len(text);
    lemma_split_nl_pieces(text);
    let ev = committed_events(text);
    if p.len() >= 2 {
        let mid = p.subrange(1, p.len() - 1);
        lemma_nonblank_elems(mid);
        assert forall|k: int, j: int| 0 <= k < ev.len() && 0 <= j < ev[k].len() implies #[trigger] ev[k][j] != '\n' by {
            assert(mid.contains(ev[k]));
            let m = choose|m: int| 0 <= m < mid.len() && mid[m] == ev[k];
            assert(mid[m] == p[m + 1]);
            assert(p[m + 1][j] != '\n');
        }
    } else {
        assert(ev =~= Seq::<Seq<char>>::empty());
    }
    let all = seq![line] + ev;
    assert forall|k: int, j: int| 0 <= k < all.len() && 0 <= j < all[k].len() implies #[trigger] all[k][j] != '\n' by {
        if k > 0 {
            assert(all[k] == ev[k - 1]);
        }
    }
    lemma_split_events_text(all);
    lemma_events_text_concat(seq![line], ev);
    assert(seq![line].drop_last() =~= Seq::<Seq<char>>::empty());
    assert(seq![line].last() == line);
    assert(events_text(Seq::<Seq<char>>::empty()) =~= Seq::<char>::empty());
    assert(events_text(seq![line]) =~= line + seq!['\n']);
    let t2 = events_text(all);
    assert(t2 == line + seq!['\n'] + events_text(ev));
    lemma_encode_utf8_concat(line, seq!['\n']);
    lemma_encode_utf8_concat(line + seq!['\n'], events_text(ev));
    lemma_encode_newline();
    let out = encode_utf8(line).push(10u8) + encode_utf8(events_text(ev));
    assert(encode_utf8(line + seq!['\n']) =~= encode_utf8(line).push(10u8));
    assert(out == encode_utf8(t2));
    vstd::utf8::encode_utf8_valid_utf8(t2);
    vstd::utf8::encode_utf8_decode_utf8(t2);
    let q = split_nl(t2);
    assert(q == all.push(Seq::<char>::empty()));
    assert(q[0] == line);
    assert(q.subrange(1, q.len() - 1) =~= ev);
    if p.len() >= 2 {
        let mid = p.subrange(1, p.len() - 1);
        lemma_nonblank_elems(mid);
        assert forall|i: int| 0 <= i < ev.len() implies !is_blank(#[trigger] ev[i]) by {}
    }
    lemma_nonblank_id(ev);
}

/// A plaintext copy reads back as what it was built from: the new header
/// line parses to the header, and the events are exactly the source's
/// committed events, byte for byte.
pub proof fn lemma_plain_copy_round_trip(buf: Seq<u8>, generation: nat, line: Seq<char>)
    requires
        decode_plain_spec(buf, generation) is Ok,
        forall|j: int| 0 <= j < line.len() ==> line[j] != '\n',
        !is_blank(line),
        parse_header_spec(line, generation) is Ok,
    ensures
        ({
            let d = decode_plain_spec(buf, generation)->Ok_0;
            &&& build_copy_spec(d, line) is Ok
            &&& decode_plain_spec(build_copy_spec(d, line)->Ok_0, generation) == Ok::<DecodedView, CodecErrorView>(
                DecodedView {
                    encoding: LogEncoding::Plain,
                    header: parse_header_spec(line, generation)->Ok_0,
                    header_line: line,
                    events: d.events,
                    event_bytes: d.event_bytes,
                    tail_frames: None,
                },
            )
        }),
{
    lemma_copy_text(decode_utf8(buf), line);
}

} // verus!
