//! The decisions a session copy makes: which artifact a session directory
//! resolves to, whether a copy between two homes is allowed, the fresh id it
//! gets, the bytes it publishes, and the check the staged copy must pass.

use vstd::prelude::*;
use crate::decimal::{dec_digits, decimal_chars};
use crate::hexdigits::{hex_digit, hex_encode, hex_lower};
use crate::sessions::codec::{
    build_copy_spec, count_from, decode, decode_spec, generation_of_filename,
    generation_of_filename_spec, header_frame_alone_spec, header_frame_is_alone, inherited_event_count,
    rewrite_header_line, rewrite_header_spec, CodecError, CodecErrorView, LogEncoding,
    Reidentification, HEADER_FORK_MAX_GENERATION,
};
use crate::text::{chars_of, concat_chars, slice_range, string_of, views};

verus! {

/* ------------------------------ encodings ------------------------------ */

pub open spec fn encoding_conflict_spec(source: LogEncoding, target_has: Option<LogEncoding>) -> Option<Seq<char>> {
    let target = match target_has {
        Some(t) => t,
        None => LogEncoding::Zstd,
    };
    if source == target {
        None
    } else if source == LogEncoding::Plain {
        Some("源会话是明文（compression: none），而目标的会话后端是 zstd：跨编码复制会让目标实例无法启动，已拒绝"@)
    } else {
        Some("源会话是 zstd，而目标的会话后端是明文的：跨编码复制会让目标实例无法启动，已拒绝"@)
    }
}

/// Whether a copy would land an artifact the target's session backend
/// refuses. A home holds one physical encoding; an empty target home cannot
/// be observed, so DSH's default (zstd) is assumed.
pub fn encoding_conflict(source: LogEncoding, target_has: Option<LogEncoding>) -> (r: Option<String>)
    ensures
        crate::sessions::codec::opt_view(r) == encoding_conflict_spec(source, target_has),
{
    let target = match target_has {
        Some(t) => t,
        None => LogEncoding::Zstd,
    };
    if source == target {
        return None;
    }
    match source {
        LogEncoding::Plain => Some(
            "源会话是明文（compression: none），而目标的会话后端是 zstd：跨编码复制会让目标实例无法启动，已拒绝".to_owned(),
        ),
        LogEncoding::Zstd => Some(
            "源会话是 zstd，而目标的会话后端是明文的：跨编码复制会让目标实例无法启动，已拒绝".to_owned(),
        ),
    }
}

/// The encoding a home's session backend uses, as one artifact name shows
/// it: a canonical zstd name first, else a canonical plaintext name.
pub fn encoding_of_name(name: &str) -> (r: Option<LogEncoding>)
    ensures
        r == (if generation_of_filename_spec(name@, LogEncoding::Zstd).is_some() {
            Some(LogEncoding::Zstd)
        } else if generation_of_filename_spec(name@, LogEncoding::Plain).is_some() {
            Some(LogEncoding::Plain)
        } else {
            None
        }),
{
    if generation_of_filename(name, LogEncoding::Zstd).is_some() {
        Some(LogEncoding::Zstd)
    } else if generation_of_filename(name, LogEncoding::Plain).is_some() {
        Some(LogEncoding::Plain)
    } else {
        None
    }
}

pub open spec fn name_encoding(name: Seq<char>) -> Option<LogEncoding> {
    if generation_of_filename_spec(name, LogEncoding::Zstd).is_some() {
        Some(LogEncoding::Zstd)
    } else if generation_of_filename_spec(name, LogEncoding::Plain).is_some() {
        Some(LogEncoding::Plain)
    } else {
        None
    }
}

/// The encoding the first canonical artifact name from `k` on shows.
pub open spec fn first_encoding(names: Seq<Seq<char>>, k: int) -> Option<LogEncoding>
    decreases names.len() - k,
{
    if k < 0 || k >= names.len() {
        None
    } else if name_encoding(names[k]) is Some {
        name_encoding(names[k])
    } else {
        first_encoding(names, k + 1)
    }
}

/// A home's session encoding, from the artifact names of its session
/// directories in walk order: the first canonical name decides; a home
/// without one shows none.
pub fn home_encoding(names: &Vec<String>) -> (r: Option<LogEncoding>)
    ensures
        r == first_encoding(views(names@), 0),
{
    let ghost nv = views(names@);
    let mut k: usize = 0;
    while k < names.len()
        invariant
            k <= names.len(),
            nv == views(names@),
            nv.len() == names.len(),
            first_encoding(nv, 0) == first_encoding(nv, k as int),
        decreases names.len() - k,
    {
        assert(nv[k as int] == names@[k as int]@);
        match encoding_of_name(names[k].as_str()) {
            Some(e) => {
                return Some(e);
            },
            None => {},
        }
        k += 1;
    }
    None
}

pub open spec fn other_encoding(e: LogEncoding) -> LogEncoding {
    if e == LogEncoding::Zstd {
        LogEncoding::Plain
    } else {
        LogEncoding::Zstd
    }
}

/// The highest generation among names `[0, n)` of one encoding, with the
/// index of its name.
pub open spec fn best_generation(names: Seq<Seq<char>>, encoding: LogEncoding, n: int) -> Option<(int, nat)>
    decreases n,
{
    if n <= 0 || n > names.len() {
        None
    } else {
        let prev = best_generation(names, encoding, n - 1);
        match generation_of_filename_spec(names[n - 1], encoding) {
            Some(g) => match prev {
                Some((i, b)) => if g > b {
                    Some((n - 1, g))
                } else {
                    Some((i, b))
                },
                None => Some((n - 1, g)),
            },
            None => prev,
        }
    }
}

/// The first name among `[0, n)` that is a canonical artifact of the other
/// encoding.
pub open spec fn first_foreign(names: Seq<Seq<char>>, encoding: LogEncoding, k: int) -> Option<int>
    decreases names.len() - k,
{
    if k < 0 || k >= names.len() {
        None
    } else if generation_of_filename_spec(names[k], other_encoding(encoding)).is_some() {
        Some(k)
    } else {
        first_foreign(names, encoding, k + 1)
    }
}

/// A session directory resolved as DSH resolves it: refused when it holds
/// an artifact of the home's opposite encoding, otherwise its highest
/// canonical generation of the home's encoding (`None` when it has none).
pub open spec fn resolve_generation_spec(names: Seq<Seq<char>>, encoding: LogEncoding) -> Result<
    Option<(int, nat)>,
    CodecErrorView,
> {
    match first_foreign(names, encoding, 0) {
        Some(k) => Err(CodecErrorView::EncodingMismatch(names[k])),
        None => Ok(best_generation(names, encoding, names.len() as int)),
    }
}

/// Resolves the artifact among a session directory's file names: the index
/// of the highest canonical generation of the home's encoding and that
/// generation.
pub fn resolve_generation(names: &Vec<String>, encoding: LogEncoding) -> (r: Result<
    Option<(usize, u64)>,
    CodecError,
>)
    ensures
        match r {
            Ok(Some((i, g))) => resolve_generation_spec(views(names@), encoding) == Ok::<Option<(int, nat)>, CodecErrorView>(Some((i as int, g as nat))),
            Ok(None) => resolve_generation_spec(views(names@), encoding) == Ok::<Option<(int, nat)>, CodecErrorView>(None),
            Err(e) => resolve_generation_spec(views(names@), encoding) == Err::<Option<(int, nat)>, CodecErrorView>(e.view()),
        },
{
    let ghost nv = views(names@);
    let other = match encoding {
        LogEncoding::Zstd => LogEncoding::Plain,
        LogEncoding::Plain => LogEncoding::Zstd,
    };
    let mut k: usize = 0;
    while k < names.len()
        invariant
            k <= names.len(),
            nv == views(names@),
            nv.len() == names.len(),
            other == other_encoding(encoding),
            first_foreign(nv, encoding, 0) == first_foreign(nv, encoding, k as int),
        decreases names.len() - k,
    {
        assert(nv[k as int] == names@[k as int]@);
        if generation_of_filename(names[k].as_str(), other).is_some() {
            return Err(CodecError::EncodingMismatch(names[k].clone()));
        }
        k += 1;
    }
    let mut best: Option<(usize, u64)> = None;
    let mut n: usize = 0;
    while n < names.len()
        invariant
            n <= names.len(),
            nv == views(names@),
            nv.len() == names.len(),
            match best {
                Some((i, g)) => best_generation(nv, encoding, n as int) == Some((i as int, g as nat)),
                None => best_generation(nv, encoding, n as int).is_none(),
            },
        decreases names.len() - n,
    {
        assert(nv[n as int] == names@[n as int]@);
        match generation_of_filename(names[n].as_str(), encoding) {
            Some(g) => {
                best = match best {
                    Some((i, b)) => if g > b {
                        Some((n, g))
                    } else {
                        Some((i, b))
                    },
                    None => Some((n, g)),
                };
            },
            None => {},
        }
        n += 1;
    }
    Ok(best)
}

/* ------------------------------ refusals ------------------------------ */

pub open spec fn unsupported_copy_spec(generation: nat) -> Option<Seq<char>> {
    if generation <= HEADER_FORK_MAX_GENERATION {
        None
    } else {
        Some(
            "v"@ + dec_digits(generation)
                + " 会话无法迁移：它的继承前缀写在日志体内（session/end-seed 事件），而复制只能改写 header 行 —— 强行复制会让目标实例起不来。v0/v1 会话可以照常迁移；该会话仍可在源实例里正常打开。"@,
        )
    }
}

/// Why this build cannot copy a session of that generation: only v0/v1
/// carry the fork marker in the header line a copy rewrites.
pub fn unsupported_copy_reason(generation: u64) -> (r: Option<String>)
    ensures
        crate::sessions::codec::opt_view(r) == unsupported_copy_spec(generation as nat),
{
    if generation <= HEADER_FORK_MAX_GENERATION {
        return None;
    }
    let a = concat_chars(&chars_of("v"), &decimal_chars(generation));
    Some(
        string_of(
            &concat_chars(
                &a,
                &chars_of(
                    " 会话无法迁移：它的继承前缀写在日志体内（session/end-seed 事件），而复制只能改写 header 行 —— 强行复制会让目标实例起不来。v0/v1 会话可以照常迁移；该会话仍可在源实例里正常打开。",
                ),
            ),
        ),
    )
}

/* ---------------------------- session names ---------------------------- */

/// A character allowed in one path segment.
pub open spec fn segment_char(c: char) -> bool {
    ('a' <= c && c <= 'z') || ('A' <= c && c <= 'Z') || ('0' <= c && c <= '9') || c == '-' || c == '_'
        || c == '.'
}

/// A single, harmless path segment: non-empty, not `.` or `..`, and made of
/// ASCII letters, digits, `-`, `_` and `.` only — no separator, traversal
/// or Windows-unsafe character can pass.
pub open spec fn valid_segment(s: Seq<char>) -> bool {
    &&& s.len() > 0
    &&& s != seq!['.']
    &&& s != seq!['.', '.']
    &&& forall|i: int| 0 <= i < s.len() ==> segment_char(#[trigger] s[i])
}

/// Checks one path segment against the whitelist.
pub fn sanitize_segment(name: &str, what: &str) -> (r: Result<String, String>)
    ensures
        match r {
            Ok(s) => valid_segment(name@) && s@ == name@,
            Err(e) => !valid_segment(name@) && e@ == "非法的"@ + what@,
        },
{
    let c = chars_of(name);
    let mut ok = c.len() > 0;
    let mut i: usize = 0;
    while i < c.len()
        invariant
            i <= c.len(),
            ok == (c@.len() > 0 && forall|j: int| 0 <= j < i ==> segment_char(#[trigger] c@[j])),
        decreases c.len() - i,
    {
        let x = c[i];
        let good = ('a' <= x && x <= 'z') || ('A' <= x && x <= 'Z') || ('0' <= x && x <= '9') || x == '-'
            || x == '_' || x == '.';
        if !good {
            ok = false;
        }
        i += 1;
    }
    let dot = vec!['.'];
    let dots = vec!['.', '.'];
    assert(dot@ =~= seq!['.']);
    assert(dots@ =~= seq!['.', '.']);
    if ok && !crate::text::chars_eq(&c, &dot) && !crate::text::chars_eq(&c, &dots) {
        Ok(name.to_owned())
    } else {
        Err(string_of(&concat_chars(&chars_of("非法的"), &chars_of(what))))
    }
}

/// A session directory handle from the frontend: both shapes DSH writes (a
/// root `session-…` and a subagent child's bare uuid) pass; anything that is
/// not one harmless path segment is refused.
pub fn sanitize_session_dir(name: &str) -> (r: Result<String, String>)
    ensures
        match r {
            Ok(s) => valid_segment(name@) && s@ == name@,
            Err(e) => !valid_segment(name@) && e@ == "非法的"@ + "会话目录名"@,
        },
{
    sanitize_segment(name, "会话目录名")
}

/* ------------------------------ session ids ------------------------------ */

/// The 16 bytes with the UUID version-4 and variant-1 bits set.
pub open spec fn uuid_bytes(raw: Seq<u8>) -> Seq<u8> {
    raw.update(6, (raw[6] & 0x0Fu8) | 0x40u8).update(8, (raw[8] & 0x3Fu8) | 0x80u8)
}

/// `session-` and the bytes' hex in 8-4-4-4-12 groups.
pub open spec fn session_id_spec(raw: Seq<u8>) -> Seq<char> {
    let h = hex_lower(uuid_bytes(raw));
    "session-"@ + h.subrange(0, 8) + seq!['-'] + h.subrange(8, 12) + seq!['-'] + h.subrange(12, 16)
        + seq!['-'] + h.subrange(16, 20) + seq!['-'] + h.subrange(20, 32)
}

proof fn lemma_hex_lower_len(b: Seq<u8>)
    ensures
        hex_lower(b).len() == 2 * b.len(),
    decreases b.len(),
{
    if b.len() > 0 {
        lemma_hex_lower_len(b.drop_last());
    }
}

/// A fresh session id, UUID-v4 shaped, from 16 random bytes.
pub fn session_id_from_bytes(raw: [u8; 16]) -> (r: String)
    ensures
        r@ == session_id_spec(raw@),
{
    let mut bytes = raw;
    let b6 = bytes[6];
    let b8 = bytes[8];
    bytes[6] = (b6 & 0x0F) | 0x40;
    bytes[8] = (b8 & 0x3F) | 0x80;
    assert(bytes@ =~= uuid_bytes(raw@));
    let h = chars_of(hex_encode(&bytes).as_str());
    proof {
        lemma_hex_lower_len(bytes@);
    }
    let dash = vec!['-'];
    let mut out = concat_chars(&chars_of("session-"), &slice_range(&h, 0, 8));
    out = concat_chars(&out, &dash);
    out = concat_chars(&out, &slice_range(&h, 8, 12));
    out = concat_chars(&out, &dash);
    out = concat_chars(&out, &slice_range(&h, 12, 16));
    out = concat_chars(&out, &dash);
    out = concat_chars(&out, &slice_range(&h, 16, 20));
    out = concat_chars(&out, &dash);
    out = concat_chars(&out, &slice_range(&h, 20, 32));
    string_of(&out)
}

/// New session ids are UUID-v4 shaped: `session-` then 8-4-4-4-12
/// lowercase hex groups, the version digit `4` and the variant digit one of
/// `8`, `9`, `a`, `b`.
pub proof fn lemma_session_id_is_uuid_v4(raw: Seq<u8>)
    requires
        raw.len() == 16,
    ensures
        session_id_spec(raw).len() == "session-"@.len() + 36,
        hex_lower(uuid_bytes(raw))[12] == '4',
        hex_lower(uuid_bytes(raw))[16] == '8' || hex_lower(uuid_bytes(raw))[16] == '9' || hex_lower(
            uuid_bytes(raw),
        )[16] == 'a' || hex_lower(uuid_bytes(raw))[16] == 'b',
{
    let u = uuid_bytes(raw);
    lemma_hex_lower_len(u);
    lemma_hex_at(u, 6);
    lemma_hex_at(u, 8);
    let b6 = raw[6];
    let b8 = raw[8];
    assert(((b6 & 0x0Fu8) | 0x40u8) / 16 == 4) by (bit_vector);
    assert(8 <= ((b8 & 0x3Fu8) | 0x80u8) / 16 <= 11) by (bit_vector);
}

proof fn lemma_hex_at(b: Seq<u8>, i: int)
    requires
        0 <= i < b.len(),
    ensures
        hex_lower(b).len() == 2 * b.len(),
        hex_lower(b)[2 * i] == hex_digit((b[i] / 16) as nat),
        hex_lower(b)[2 * i + 1] == hex_digit((b[i] % 16) as nat),
    decreases b.len(),
{
    lemma_hex_lower_len(b);
    lemma_hex_lower_len(b.drop_last());
    if i < b.len() - 1 {
        lemma_hex_at(b.drop_last(), i);
    }
}

/* ------------------------------- copying ------------------------------- */

pub open spec fn copy_refusal_spec(generation: nat, source: LogEncoding, target: LogEncoding) -> Option<Seq<char>> {
    match unsupported_copy_spec(generation) {
        Some(r) => Some(r),
        None => encoding_conflict_spec(source, Some(target)),
    }
}

/// Why a copy of a session of `generation` and `source` encoding into a
/// home whose backend is `target` is refused before anything is read.
pub fn copy_refusal(generation: u64, source: LogEncoding, target: LogEncoding) -> (r: Option<String>)
    ensures
        crate::sessions::codec::opt_view(r) == copy_refusal_spec(generation as nat, source, target),
{
    match unsupported_copy_reason(generation) {
        Some(r) => Some(r),
        None => encoding_conflict(source, Some(target)),
    }
}

/// What a prepared copy publishes and how the staged file is checked.
#[derive(Debug)]
pub struct PreparedCopy {
    pub bytes: Vec<u8>,
    /// The source's id, the copy's `parentSession`.
    pub parent: String,
    pub event_count: usize,
    pub inherited: usize,
}

pub struct PreparedView {
    pub bytes: Seq<u8>,
    pub parent: Seq<char>,
    pub event_count: nat,
    pub inherited: nat,
}

/// The copy of a decoded source: refused when its content disagrees with
/// its name's encoding or its event count cannot be established; otherwise
/// the header re-identified with the new id, the source as parent and the
/// logical event count, framed as the source was.
pub open spec fn prepare_copy_spec(buf: Seq<u8>, generation: nat, source: LogEncoding, new_id: Seq<char>) -> Result<
    PreparedView,
    Seq<char>,
> {
    match decode_spec(buf, generation) {
        Err(e) => Err(crate::sessions::codec::error_detail(e)),
        Ok(d) => if d.encoding != source {
            Err("源会话的内容与其文件名的物理编码不一致，已拒绝复制"@)
        } else {
            match count_from(d.events, 0, 0) {
                Err(e) => Err(crate::sessions::codec::error_detail(e)),
                Ok(n) => match rewrite_header_spec(d.header, d.header_line, new_id, d.header.id, n) {
                    Err(e) => Err(crate::sessions::codec::error_detail(e)),
                    Ok(line) => match build_copy_spec(d, line) {
                        Err(e) => Err(crate::sessions::codec::error_detail(e)),
                        Ok(bytes) => Ok(
                            PreparedView { bytes, parent: d.header.id, event_count: d.events.len(), inherited: n },
                        ),
                    },
                },
            }
        },
    }
}

/// Prepares the copy of a source artifact under a fresh id: decoded,
/// counted, re-identified and re-framed, nothing written yet.
pub fn prepare_copy(buf: &[u8], generation: u64, source: LogEncoding, new_id: &str) -> (r: Result<PreparedCopy, String>)
    ensures
        match r {
            Ok(p) => prepare_copy_spec(buf@, generation as nat, source, new_id@) == Ok::<PreparedView, Seq<char>>(
                PreparedView { bytes: p.bytes@, parent: p.parent@, event_count: p.event_count as nat, inherited: p.inherited as nat },
            ),
            Err(e) => prepare_copy_spec(buf@, generation as nat, source, new_id@) == Err::<PreparedView, Seq<char>>(e@),
        },
{
    let log = match decode(buf, generation) {
        Ok(l) => l,
        Err(e) => {
            return Err(e.detail());
        },
    };
    if log.encoding != source {
        return Err("源会话的内容与其文件名的物理编码不一致，已拒绝复制".to_owned());
    }
    let inherited = match inherited_event_count(&log.event_lines) {
        Ok(n) => n,
        Err(e) => {
            return Err(e.detail());
        },
    };
    let reid = Reidentification { new_id: new_id.to_owned(), parent: log.header.id.clone(), inherited };
    let line = match rewrite_header_line(&log.header, &reid) {
        Ok(l) => l,
        Err(e) => {
            return Err(e.detail());
        },
    };
    let bytes = match log.build_copy(line.as_str()) {
        Ok(b) => b,
        Err(e) => {
            return Err(e.detail());
        },
    };
    Ok(PreparedCopy { bytes, parent: log.header.id.clone(), event_count: log.event_count, inherited })
}

pub open spec fn staged_check_spec(
    staged: Seq<u8>,
    generation: nat,
    new_id: Seq<char>,
    parent: Seq<char>,
    event_count: nat,
    inherited: nat,
) -> Result<(), Seq<char>> {
    match decode_spec(staged, generation) {
        Err(e) => Err(crate::sessions::codec::error_detail(e)),
        Ok(d) => if d.header.id != new_id || d.header.parent != Some(parent) || d.events.len() != event_count
            || count_from(d.events, 0, 0) != Ok::<nat, CodecErrorView>(inherited) {
            Err("复制校验失败：新会话身份、事件或继承长度与预期不符，已回滚"@)
        } else {
            match header_frame_alone_spec(staged) {
                Ok(()) => Ok(()),
                Err(CodecErrorView::FrameDecode(detail)) => Err("复制校验失败："@ + detail + "，已回滚"@),
                Err(e) => Err("复制校验失败："@ + crate::sessions::codec::error_detail(e) + "，已回滚"@),
            }
        }
    }
}

/// The check a staged copy must pass before it is published: it re-decodes
/// to the new id, the source as parent, the same events and the same
/// inherited length, and its first frame is the header line alone.
pub fn check_staged_copy(
    staged: &[u8],
    generation: u64,
    new_id: &str,
    parent: &str,
    event_count: usize,
    inherited: usize,
) -> (r: Result<(), String>)
    ensures
        match r {
            Ok(()) => staged_check_spec(staged@, generation as nat, new_id@, parent@, event_count as nat, inherited as nat) == Ok::<(), Seq<char>>(()),
            Err(e) => staged_check_spec(staged@, generation as nat, new_id@, parent@, event_count as nat, inherited as nat) == Err::<(), Seq<char>>(e@),
        },
{
    let re = match decode(staged, generation) {
        Ok(l) => l,
        Err(e) => {
            return Err(e.detail());
        },
    };
    let staged_cut = inherited_event_count(&re.event_lines);
    let same_id = crate::text::chars_eq(&chars_of(re.header.id.as_str()), &chars_of(new_id));
    let same_parent = match &re.header.parent {
        Some(p) => crate::text::chars_eq(&chars_of(p.as_str()), &chars_of(parent)),
        None => false,
    };
    let same_cut = match staged_cut {
        Ok(n) => n == inherited,
        Err(_) => false,
    };
    if !same_id || !same_parent || re.event_count != event_count || !same_cut {
        return Err("复制校验失败：新会话身份、事件或继承长度与预期不符，已回滚".to_owned());
    }
    match header_frame_is_alone(staged) {
        Ok(()) => Ok(()),
        Err(e) => {
            let detail = match e {
                CodecError::FrameDecode(d) => d,
                other => other.detail(),
            };
            Err(string_of(&concat_chars(&concat_chars(&chars_of("复制校验失败："), &chars_of(detail.as_str())), &chars_of("，已回滚"))))
        },
    }
}

} // verus!
