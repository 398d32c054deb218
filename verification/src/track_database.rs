//! Pure rules of the track database: the battle/race split of course
//! identifiers and the ordering key computed from a track's version string.

use vstd::prelude::*;
use vstd::string::StringSliceAdditionalSpecFns;

verus! {

/// Course identifiers from 0x20 up are battle arenas.
pub fn is_battle(course_id: i16) -> (r: bool)
    ensures
        r == (course_id >= 0x20),
{
    course_id >= 0x20
}

/// ASCII lowercasing of one byte: letters A to Z gain 0x20.
pub open spec fn ascii_lower(b: u8) -> u8 {
    if 0x41 <= b <= 0x5a {
        (b + 0x20) as u8
    } else {
        b
    }
}

/// ASCII lowercasing of a whole byte sequence.
pub open spec fn lower_bytes(s: Seq<u8>) -> Seq<u8> {
    s.map_values(|b: u8| ascii_lower(b))
}

pub open spec fn is_digit(b: u8) -> bool {
    0x30 <= b <= 0x39
}

pub open spec fn all_digits(s: Seq<u8>) -> bool {
    forall|i: int| 0 <= i < s.len() ==> is_digit(#[trigger] s[i])
}

/// The decimal value spelled by a digit sequence.
pub open spec fn dec_value(s: Seq<u8>) -> int
    decreases s.len(),
{
    if s.len() == 0 {
        0
    } else {
        dec_value(s.drop_last()) * 10 + (s.last() - 0x30)
    }
}

/// What parsing a signed 8-bit decimal does: an optional sign, then at
/// least one digit, the value within the type's range; anything else fails.
pub open spec fn spec_parse_i8(s: Seq<u8>) -> Option<i8> {
    let neg = s.len() >= 1 && s[0] == 0x2d;
    let digs = if s.len() >= 1 && (s[0] == 0x2b || s[0] == 0x2d) {
        s.skip(1)
    } else {
        s
    };
    if digs.len() == 0 || !all_digits(digs) {
        None
    } else if neg {
        if dec_value(digs) <= 128 {
            Some((-dec_value(digs)) as i8)
        } else {
            None
        }
    } else {
        if dec_value(digs) <= 127 {
            Some(dec_value(digs) as i8)
        } else {
            None
        }
    }
}

/// What stripping a pre-release tag does: if `p` is a prefix of `v`, the
/// rest is parsed as a signed offset (zero when unparsable) added to the
/// tag's key.
pub open spec fn spec_handle_pre(v: Seq<u8>, p: Seq<u8>, key: int) -> Option<int> {
    if v.len() >= p.len() && v.subrange(0, p.len() as int) == p {
        Some(
            key + (match spec_parse_i8(v.skip(p.len() as int)) {
                Some(x) => x as int,
                None => 0,
            }),
        )
    } else {
        None
    }
}

/// The first position of byte `b` at or after `from`, or the length.
pub open spec fn find_byte(s: Seq<u8>, b: u8, from: int) -> int
    decreases s.len() - from,
{
    if from < 0 || from >= s.len() {
        s.len() as int
    } else if s[from] == b {
        from
    } else {
        find_byte(s, b, from + 1)
    }
}

pub open spec fn pre_tag() -> Seq<u8> {
    seq![0x70u8, 0x72u8, 0x65u8]
}

pub open spec fn alpha_tag() -> Seq<u8> {
    seq![0x61u8, 0x6cu8, 0x70u8, 0x68u8, 0x61u8]
}

pub open spec fn beta_tag() -> Seq<u8> {
    seq![0x62u8, 0x65u8, 0x74u8, 0x61u8]
}

/// The ordering key of a version string, over its lowercased bytes:
/// pre-release tags sort far to the front (pre, then alpha, then beta, each
/// shifted by its numeric suffix); otherwise a leading `v` is dropped and
/// the dot-separated parts give `major * 10 + minor`, plus one when a third
/// part exists; an unreadable major version sorts last.
pub open spec fn spec_extract_version(v: Seq<u8>) -> int {
    let lv = lower_bytes(v);
    if spec_handle_pre(lv, pre_tag(), -3) is Some {
        spec_handle_pre(lv, pre_tag(), -3)->Some_0
    } else if spec_handle_pre(lv, alpha_tag(), -2) is Some {
        spec_handle_pre(lv, alpha_tag(), -2)->Some_0
    } else if spec_handle_pre(lv, beta_tag(), -1) is Some {
        spec_handle_pre(lv, beta_tag(), -1)->Some_0
    } else {
        let core = if lv.len() >= 1 && lv[0] == 0x76 {
            lv.skip(1)
        } else {
            lv
        };
        let d1 = find_byte(core, 0x2e, 0);
        match spec_parse_i8(core.subrange(0, d1)) {
            Some(ver) => {
                let k0 = (ver as int) * 10;
                if d1 < core.len() {
                    let d2 = find_byte(core, 0x2e, d1 + 1);
                    let k1 = match spec_parse_i8(core.subrange(d1 + 1, d2)) {
                        Some(dec) => k0 + dec,
                        None => k0,
                    };
                    if d2 < core.len() {
                        k1 + 1
                    } else {
                        k1
                    }
                } else {
                    k0
                }
            },
            None => 32767,
        }
    }
}

fn lower_byte(b: u8) -> (r: u8)
    ensures
        r == ascii_lower(b),
{
    if b >= 0x41 && b <= 0x5a {
        b + 0x20
    } else {
        b
    }
}

fn lowered(v: &[u8]) -> (r: Vec<u8>)
    ensures
        r@ =~= lower_bytes(v@),
{
    let mut r: Vec<u8> = Vec::new();
    let mut i: usize = 0;
    while i < v.len()
        invariant
            i <= v@.len(),
            r@.len() == i,
            forall|k: int| 0 <= k < i ==> r@[k] == ascii_lower(v@[k]),
        decreases v@.len() - i,
    {
        r.push(lower_byte(v[i]));
        i = i + 1;
    }
    r
}

/// Parses a signed 8-bit decimal from raw bytes, exactly as the standard
/// parser would: optional sign, digits only, range checked.
fn parse_i8_bytes(s: &[u8]) -> (r: Option<i8>)
    ensures
        r == spec_parse_i8(s@),
{
    let len = s.len();
    let neg = len >= 1 && s[0] == 0x2d;
    let start: usize = if len >= 1 && (s[0] == 0x2b || s[0] == 0x2d) {
        1
    } else {
        0
    };
    let ghost digs = if s@.len() >= 1 && (s@[0] == 0x2b || s@[0] == 0x2d) {
        s@.skip(1)
    } else {
        s@
    };
    proof {
        assert(digs =~= s@.subrange(start as int, len as int));
    }
    if len == start {
        return None;
    }
    // value clamped just past the range of interest; once the true value
    // exceeds 128 it can only grow
    let mut acc: u32 = 0;
    let mut i: usize = start;
    while i < len
        invariant
            start <= i <= len,
            len == s@.len(),
            digs == s@.subrange(start as int, len as int),
            digs == (if s@.len() >= 1 && (s@[0] == 0x2b || s@[0] == 0x2d) {
                s@.skip(1)
            } else {
                s@
            }),
            neg == (s@.len() >= 1 && s@[0] == 0x2d),
            forall|k: int| start <= k < i ==> is_digit(#[trigger] s@[k]),
            acc <= 129,
            dec_value(s@.subrange(start as int, i as int)) <= 128 ==> acc == dec_value(
                s@.subrange(start as int, i as int),
            ),
            dec_value(s@.subrange(start as int, i as int)) > 128 ==> acc == 129,
            dec_value(s@.subrange(start as int, i as int)) >= 0,
        decreases len - i,
    {
        let b = s[i];
        if b < 0x30 || b > 0x39 {
            proof {
                assert(digs[i - start] == s@.subrange(start as int, len as int)[i - start]);
                assert(s@.subrange(start as int, len as int)[i - start] == s@[i as int]);
                assert(!is_digit(digs[i - start]));
                assert(!all_digits(digs));
            }
            return None;
        }
        let d = (b - 0x30) as u32;
        proof {
            let pre = s@.subrange(start as int, i as int);
            let post = s@.subrange(start as int, i as int + 1);
            assert(post.drop_last() =~= pre);
            assert(post.last() == s@[i as int]);
            if dec_value(pre) > 128 {
                assert(dec_value(pre) * 10 >= 1290) by (nonlinear_arith)
                    requires
                        dec_value(pre) >= 129,
                ;
            }
        }
        acc = acc * 10 + d;
        if acc > 128 {
            acc = 129;
        }
        i = i + 1;
    }
    proof {
        assert(all_digits(digs)) by {
            assert forall|k: int| 0 <= k < digs.len() implies is_digit(#[trigger] digs[k]) by {
                assert(digs[k] == s@.subrange(start as int, len as int)[k]);
                assert(s@.subrange(start as int, len as int)[k] == s@[start + k]);
            }
        }
    }
    if neg {
        if acc <= 128 {
            Some((0 - (acc as i16)) as i8)
        } else {
            None
        }
    } else {
        if acc <= 127 {
            Some(acc as i8)
        } else {
            None
        }
    }
}

/// Strips `p` from the front of `v` and parses the rest, adding `key`.
fn handle_pre_bytes(v: &[u8], p: &[u8], key: i16) -> (r: Option<i16>)
    requires
        i16::MIN + 128 <= key <= i16::MAX - 127,
    ensures
        r is Some <==> spec_handle_pre(v@, p@, key as int) is Some,
        r matches Some(x) ==> spec_handle_pre(v@, p@, key as int) == Some(x as int),
{
    let plen = p.len();
    if v.len() < plen {
        return None;
    }
    let mut i: usize = 0;
    while i < plen
        invariant
            i <= plen,
            plen == p@.len(),
            plen <= v@.len(),
            forall|k: int| 0 <= k < i ==> v@[k] == p@[k],
        decreases plen - i,
    {
        if v[i] != p[i] {
            proof {
                assert(v@.subrange(0, plen as int)[i as int] != p@[i as int]);
            }
            return None;
        }
        i = i + 1;
    }
    proof {
        assert(v@.subrange(0, plen as int) =~= p@);
    }
    let rest = vstd::slice::slice_subrange(v, plen, v.len());
    proof {
        assert(rest@ =~= v@.skip(plen as int));
    }
    let offset: i16 = match parse_i8_bytes(rest) {
        Some(x) => x as i16,
        None => 0,
    };
    Some(offset + key)
}

/// Strips a pre-release tag from a version string and turns its numeric
/// suffix into an offset from the tag's key, or reports that the tag is not
/// there. The caller hands in the string already lowercased when
/// case-insensitive matching is wanted.
pub fn handle_pre_version(version: &str, to_strip: &str, key: i16) -> (r: Option<i16>)
    requires
        i16::MIN + 128 <= key <= i16::MAX - 127,
    ensures
        r is Some <==> spec_handle_pre(version.spec_bytes(), to_strip.spec_bytes(), key as int)
            is Some,
        r matches Some(x) ==> spec_handle_pre(
            version.spec_bytes(),
            to_strip.spec_bytes(),
            key as int,
        ) == Some(x as int),
{
    handle_pre_bytes(version.as_bytes(), to_strip.as_bytes(), key)
}

fn find_dot(v: &[u8], from: usize) -> (r: usize)
    requires
        from <= v@.len(),
    ensures
        r == find_byte(v@, 0x2e, from as int),
        from <= r <= v@.len(),
    decreases v@.len() - from,
{
    let mut i: usize = from;
    while i < v.len()
        invariant
            from <= i <= v@.len(),
            find_byte(v@, 0x2e, from as int) == find_byte(v@, 0x2e, i as int),
        decreases v@.len() - i,
    {
        if v[i] == 0x2e {
            return i;
        }
        i = i + 1;
    }
    i
}

/// The ordering key of a version string: pre-release versions (pre, alpha,
/// beta, with an optional numeric suffix) come first, then `major.minor`
/// versions as `major * 10 + minor` with a penalty of one for carrying a
/// third part, and unreadable versions last.
pub fn extract_version(version: &str) -> (r: i16)
    ensures
        r as int == spec_extract_version(version.spec_bytes()),
{
    let bytes = version.as_bytes();
    let low_vec = lowered(bytes);
    let low: &[u8] = low_vec.as_slice();
    let ghost lv = lower_bytes(version.spec_bytes());
    let pre = "pre";
    let alpha = "alpha";
    let beta = "beta";
    proof {
        reveal_strlit("pre");
        reveal_strlit("alpha");
        reveal_strlit("beta");
        broadcast use vstd::string::is_ascii_spec_bytes;

        assert(vstd::string::is_ascii(pre));
        assert(pre.spec_bytes() =~= pre_tag());
        assert(vstd::string::is_ascii(alpha));
        assert(alpha.spec_bytes() =~= alpha_tag());
        assert(vstd::string::is_ascii(beta));
        assert(beta.spec_bytes() =~= beta_tag());
    }
    if let Some(x) = handle_pre_bytes(low, pre.as_bytes(), -3) {
        return x;
    }
    if let Some(x) = handle_pre_bytes(low, alpha.as_bytes(), -2) {
        return x;
    }
    if let Some(x) = handle_pre_bytes(low, beta.as_bytes(), -1) {
        return x;
    }
    let core: &[u8] = if low_vec.len() >= 1 && low[0] == 0x76 {
        vstd::slice::slice_subrange(low, 1, low_vec.len())
    } else {
        low
    };
    proof {
        if lv.len() >= 1 && lv[0] == 0x76 {
            assert(core@ =~= lv.skip(1));
        }
    }
    let d1 = find_dot(core, 0);
    let first = vstd::slice::slice_subrange(core, 0, d1);
    match parse_i8_bytes(first) {
        Some(ver) => {
            let mut key: i16 = (ver as i16) * 10;
            if d1 < core.len() {
                let d2 = find_dot(core, d1 + 1);
                let second = vstd::slice::slice_subrange(core, d1 + 1, d2);
                if let Some(dec) = parse_i8_bytes(second) {
                    key = key + dec as i16;
                }
                if d2 < core.len() {
                    key = key + 1;
                }
            }
            key
        },
        None => 32767,
    }
}

/// What parsing an unsigned decimal up to `max` does: an optional plus sign,
/// then at least one digit, the value no more than `max`.
pub open spec fn spec_parse_unsigned(s: Seq<u8>, max: int) -> Option<int> {
    let digs = if s.len() >= 1 && s[0] == 0x2b {
        s.skip(1)
    } else {
        s
    };
    if digs.len() == 0 || !all_digits(digs) {
        None
    } else if dec_value(digs) <= max {
        Some(dec_value(digs))
    } else {
        None
    }
}

/// Parses an unsigned decimal from raw bytes, exactly as the standard
/// parsers for the unsigned integer types do: an optional plus sign, digits
/// only, range checked against `max`.
pub fn parse_unsigned_bytes(s: &[u8], max: u64) -> (r: Option<u64>)
    requires
        max <= u32::MAX,
    ensures
        r is Some <==> spec_parse_unsigned(s@, max as int) is Some,
        r matches Some(v) ==> spec_parse_unsigned(s@, max as int) == Some(v as int),
{
    let len = s.len();
    let start: usize = if len >= 1 && s[0] == 0x2b {
        1
    } else {
        0
    };
    let ghost digs = if s@.len() >= 1 && s@[0] == 0x2b {
        s@.skip(1)
    } else {
        s@
    };
    proof {
        assert(digs =~= s@.subrange(start as int, len as int));
    }
    if len == start {
        return None;
    }
    // the accumulator is clamped just past `max`; once the true value
    // exceeds it, it can only grow
    let mut acc: u64 = 0;
    let mut i: usize = start;
    while i < len
        invariant
            start <= i <= len,
            len == s@.len(),
            max <= u32::MAX,
            digs == s@.subrange(start as int, len as int),
            digs == (if s@.len() >= 1 && s@[0] == 0x2b {
                s@.skip(1)
            } else {
                s@
            }),
            forall|k: int| start <= k < i ==> is_digit(#[trigger] s@[k]),
            acc <= max + 1,
            dec_value(s@.subrange(start as int, i as int)) <= max ==> acc == dec_value(
                s@.subrange(start as int, i as int),
            ),
            dec_value(s@.subrange(start as int, i as int)) > max ==> acc == max + 1,
            dec_value(s@.subrange(start as int, i as int)) >= 0,
        decreases len - i,
    {
        let b = s[i];
        if b < 0x30 || b > 0x39 {
            proof {
                assert(digs[i - start] == s@.subrange(start as int, len as int)[i - start]);
                assert(s@.subrange(start as int, len as int)[i - start] == s@[i as int]);
                assert(!is_digit(digs[i - start]));
                assert(!all_digits(digs));
            }
            return None;
        }
        let d = (b - 0x30) as u64;
        proof {
            let pre = s@.subrange(start as int, i as int);
            let post = s@.subrange(start as int, i as int + 1);
            assert(post.drop_last() =~= pre);
            assert(post.last() == s@[i as int]);
            if dec_value(pre) > max {
                assert(dec_value(pre) * 10 >= (max + 1) * 10) by (nonlinear_arith)
                    requires
                        dec_value(pre) >= max + 1,
                        max >= 0,
                ;
            }
        }
        acc = acc * 10 + d;
        if acc > max {
            acc = max + 1;
        }
        i = i + 1;
    }
    proof {
        assert(all_digits(digs)) by {
            assert forall|k: int| 0 <= k < digs.len() implies is_digit(#[trigger] digs[k]) by {
                assert(digs[k] == s@.subrange(start as int, len as int)[k]);
                assert(s@.subrange(start as int, len as int)[k] == s@[start + k]);
            }
        }
    }
    if acc <= max {
        Some(acc)
    } else {
        None
    }
}

/// Parses an unsigned 8-bit decimal from a string.
pub fn parse_u8_str(s: &str) -> (r: Option<u8>)
    ensures
        r is Some <==> spec_parse_unsigned(s.spec_bytes(), 255) is Some,
        r matches Some(v) ==> spec_parse_unsigned(s.spec_bytes(), 255) == Some(v as int),
{
    match parse_unsigned_bytes(s.as_bytes(), 255) {
        Some(v) => Some(v as u8),
        None => None,
    }
}

/// Parses an unsigned 32-bit decimal from a string.
pub fn parse_u32_str(s: &str) -> (r: Option<u32>)
    ensures
        r is Some <==> spec_parse_unsigned(s.spec_bytes(), u32::MAX as int) is Some,
        r matches Some(v) ==> spec_parse_unsigned(s.spec_bytes(), u32::MAX as int) == Some(
            v as int,
        ),
{
    match parse_unsigned_bytes(s.as_bytes(), 0xffff_ffff) {
        Some(v) => Some(v as u32),
        None => None,
    }
}


/// The cookie of the first listing capture that names the wanted track, if
/// any: the decision that picks the download link out of the scraped pairs.
pub open spec fn spec_select_download(caps: Seq<(Seq<char>, u32)>, wiimm_id: u32) -> Option<
    Seq<char>,
>
    decreases caps.len(),
{
    if caps.len() == 0 {
        None
    } else if caps[0].1 == wiimm_id {
        Some(caps[0].0)
    } else {
        spec_select_download(caps.skip(1), wiimm_id)
    }
}

/// Picks the first scraped (cookie, track-number) pair whose number is the
/// wanted one and hands its cookie back.
pub fn select_download(captures: &Vec<(String, u32)>, wiimm_id: u32) -> (r: Option<String>)
    ensures
        ({
            let spec = spec_select_download(
                captures@.map_values(|c: (String, u32)| (c.0@, c.1)),
                wiimm_id,
            );
            match r {
                Some(cookie) => spec == Some(cookie@),
                None => spec is None,
            }
        }),
{
    let ghost caps = captures@.map_values(|c: (String, u32)| (c.0@, c.1));
    proof {
        assert(caps.skip(0) =~= caps);
    }
    let mut i: usize = 0;
    while i < captures.len()
        invariant
            i <= captures@.len(),
            caps == captures@.map_values(|c: (String, u32)| (c.0@, c.1)),
            caps.len() == captures@.len(),
            spec_select_download(caps, wiimm_id) == spec_select_download(
                caps.skip(i as int),
                wiimm_id,
            ),
        decreases captures@.len() - i,
    {
        proof {
            assert(caps.skip(i as int)[0] == caps[i as int]);
            assert(caps[i as int] == (captures@[i as int].0@, captures@[i as int].1));
            assert(caps.skip(i as int).skip(1) =~= caps.skip(i as int + 1));
        }
        if captures[i].1 == wiimm_id {
            return Some(captures[i].0.clone());
        }
        i = i + 1;
    }
    proof {
        assert(caps.skip(caps.len() as int).len() == 0);
    }
    None
}

} // verus!
