use vstd::prelude::*;
use crate::errors::RetentionError;

verus! {

/// True exactly of the ASCII decimal digits.
pub open spec fn is_ascii_digit(c: u8) -> bool {
    48 <= c <= 57
}

/// What the byte at position `i` of a well-formed timestamp must be:
/// `YYYY-MM-DD_HH-MM-SS`, digits everywhere but the three dashes within
/// each half and the underscore between date and time.
pub open spec fn ts_byte_ok(c: u8, i: int) -> bool {
    if i == 4 || i == 7 || i == 13 || i == 16 {
        c == 45
    } else if i == 10 {
        c == 95
    } else {
        is_ascii_digit(c)
    }
}

/// A well-formed timestamp rendering: 19 bytes shaped `YYYY-MM-DD_HH-MM-SS`.
pub open spec fn timestamp_wf(s: Seq<u8>) -> bool {
    s.len() == 19 && (forall|i: int| 0 <= i < 19 ==> ts_byte_ok(#[trigger] s[i], i))
}

/// True when every byte of the sequence is an ASCII decimal digit.
pub open spec fn all_digits(s: Seq<u8>) -> bool {
    forall|i: int| 0 <= i < s.len() ==> is_ascii_digit(#[trigger] s[i])
}

/// The numeric value of a digit sequence read as a decimal numeral.
pub open spec fn dec_value(s: Seq<u8>) -> nat
    decreases s,
{
    if s.len() == 0 {
        0
    } else {
        dec_value(s.drop_last()) * 10 + ((s.last() - 48) as nat)
    }
}

/// One version component: a non-empty digit run whose value fits in 64 bits.
pub open spec fn spec_component(s: Seq<u8>) -> Option<u64> {
    if s.len() > 0 && all_digits(s) && dec_value(s) <= u64::MAX {
        Some(dec_value(s) as u64)
    } else {
        None
    }
}

/// Index of the first dot at or after `from`, or `s.len()` if there is none.
pub open spec fn find_dot(s: Seq<u8>, from: int) -> int
    recommends
        0 <= from <= s.len(),
    decreases s.len() - from when 0 <= from <= s.len()
{
    if from >= s.len() {
        s.len() as int
    } else if s[from] == 46 {
        from
    } else {
        find_dot(s, from + 1)
    }
}

/// The version triple denoted by the version portion of a snapshot name:
/// 1 to 3 dot-separated decimal components, absent trailing components
/// defaulting to 0. Anything else - an empty component, a non-digit, a
/// value over 64 bits, or more than 3 components - denotes nothing.
pub open spec fn spec_version(v: Seq<u8>) -> Option<(u64, u64, u64)> {
    let p1 = find_dot(v, 0);
    if p1 == v.len() {
        match spec_component(v) {
            Some(a) => Some((a, 0u64, 0u64)),
            None => None,
        }
    } else {
        let p2 = find_dot(v, p1 + 1);
        if p2 == v.len() {
            match (spec_component(v.subrange(0, p1)), spec_component(
                v.subrange(p1 + 1, v.len() as int),
            )) {
                (Some(a), Some(b)) => Some((a, b, 0u64)),
                _ => None,
            }
        } else {
            let p3 = find_dot(v, p2 + 1);
            if p3 != v.len() {
                None
            } else {
                match (
                    spec_component(v.subrange(0, p1)),
                    spec_component(v.subrange(p1 + 1, p2)),
                    spec_component(v.subrange(p2 + 1, v.len() as int)),
                ) {
                    (Some(a), Some(b), Some(c)) => Some((a, b, c)),
                    _ => None,
                }
            }
        }
    }
}

/// The bytes of the archive suffix `.tar.gz`.
pub open spec fn targz_seq() -> Seq<u8> {
    seq![46u8, 116u8, 97u8, 114u8, 46u8, 103u8, 122u8]
}

/// True when the seven bytes starting at `i` spell `.tar.gz`.
pub open spec fn targz_at(n: Seq<u8>, i: int) -> bool
    recommends
        0 <= i && i + 7 <= n.len(),
{
    &&& n[i] == 46
    &&& n[i + 1] == 116
    &&& n[i + 2] == 97
    &&& n[i + 3] == 114
    &&& n[i + 4] == 46
    &&& n[i + 5] == 103
    &&& n[i + 6] == 122
}

/// A name denotes a compressed snapshot when stripping a final `.tar.gz`
/// still leaves a non-empty version portion.
pub open spec fn name_compressed(n: Seq<u8>) -> bool {
    n.len() >= 28 && targz_at(n, n.len() - 7)
}

/// Where the version portion of the name ends: before the archive suffix
/// for a compressed snapshot, at the end of the name otherwise.
pub open spec fn version_end(n: Seq<u8>) -> int {
    if name_compressed(n) {
        n.len() - 7
    } else {
        n.len() as int
    }
}

/// The version portion of the name: everything between the separator after
/// the timestamp and the archive suffix, if any.
pub open spec fn version_part(n: Seq<u8>) -> Seq<u8> {
    n.subrange(20, version_end(n))
}

/// The outer shape of a snapshot name: a well-formed timestamp, one
/// underscore, and a non-empty remainder.
pub open spec fn name_shape_ok(n: Seq<u8>) -> bool {
    &&& n.len() >= 21
    &&& timestamp_wf(n.subrange(0, 19))
    &&& n[19] == 95
}

/// A name that the catalog accepts: well-shaped, with a parseable version.
pub open spec fn name_ok(n: Seq<u8>) -> bool {
    name_shape_ok(n) && spec_version(version_part(n)) is Some
}

/// A snapshot name taken apart: the timestamp rendering, the version
/// triple, and whether the entry is a compressed archive.
#[derive(Debug)]
pub struct ParsedName {
    pub ts: Vec<u8>,
    pub major: u64,
    pub minor: u64,
    pub patch: u64,
    pub compressed: bool,
}

/// Reports whether a byte fits position `i` of a timestamp.
fn ts_byte_ok_exec(c: u8, i: usize) -> (r: bool)
    ensures
        r == ts_byte_ok(c, i as int),
{
    if i == 4 || i == 7 || i == 13 || i == 16 {
        c == 45
    } else if i == 10 {
        c == 95
    } else {
        48 <= c && c <= 57
    }
}

/// Checks the first 19 bytes of the name against the timestamp shape.
fn check_timestamp(name: &Vec<u8>) -> (r: bool)
    requires
        name@.len() >= 19,
    ensures
        r == timestamp_wf(name@.subrange(0, 19)),
{
    let ghost ts = name@.subrange(0, 19);
    let mut i: usize = 0;
    while i < 19
        invariant
            name@.len() >= 19,
            0 <= i <= 19,
            ts == name@.subrange(0, 19),
            forall|j: int| 0 <= j < i ==> ts_byte_ok(#[trigger] ts[j], j),
        decreases 19 - i,
    {
        if !ts_byte_ok_exec(name[i], i) {
            assert(ts[i as int] == name@[i as int]);
            return false;
        }
        assert(ts[i as int] == name@[i as int]);
        i = i + 1;
    }
    true
}

/// Copies the byte range `[start, end)` of the source into a fresh vector.
fn copy_range(src: &Vec<u8>, start: usize, end: usize) -> (r: Vec<u8>)
    requires
        start <= end <= src@.len(),
    ensures
        r@ == src@.subrange(start as int, end as int),
{
    let mut out: Vec<u8> = Vec::new();
    let mut i = start;
    while i < end
        invariant
            start <= i <= end <= src@.len(),
            out@ == src@.subrange(start as int, i as int),
        decreases end - i,
    {
        out.push(src[i]);
        assert(src@.subrange(start as int, i + 1) =~= src@.subrange(start as int, i as int).push(
            src@[i as int],
        ));
        i = i + 1;
    }
    out
}

/// Copies the byte range `[start, end)` of the source, as `copy_range`.
pub fn copy_range_pub(src: &Vec<u8>, start: usize, end: usize) -> (r: Vec<u8>)
    requires
        start <= end <= src@.len(),
    ensures
        r@ == src@.subrange(start as int, end as int),
{
    copy_range(src, start, end)
}

/// Copies a byte vector.
pub fn copy_whole(src: &Vec<u8>) -> (r: Vec<u8>)
    ensures
        r@ == src@,
{
    let r = copy_range(src, 0, src.len());
    assert(src@.subrange(0, src@.len() as int) =~= src@);
    r
}

/// Index of the first dot at or after `from`, mirroring `find_dot`.
fn find_dot_exec(v: &Vec<u8>, from: usize) -> (r: usize)
    requires
        from <= v@.len(),
    ensures
        r as int == find_dot(v@, from as int),
        from <= r <= v@.len(),
    decreases v@.len() - from,
{
    if from >= v.len() {
        v.len()
    } else if v[from] == 46 {
        from
    } else {
        find_dot_exec(v, from + 1)
    }
}

/// A decimal numeral never shrinks when extended on the right.
proof fn lemma_dec_value_take_le(s: Seq<u8>, j: int)
    requires
        0 <= j <= s.len(),
    ensures
        dec_value(s.subrange(0, j)) <= dec_value(s),
    decreases s.len(),
{
    if j == s.len() {
        assert(s.subrange(0, j) =~= s);
    } else {
        assert(s.drop_last().subrange(0, j) =~= s.subrange(0, j));
        lemma_dec_value_take_le(s.drop_last(), j);
    }
}

/// Parses the byte range `[start, end)` of `v` as one version component,
/// exactly as `spec_component` reads it.
fn parse_component(v: &Vec<u8>, start: usize, end: usize) -> (r: Option<u64>)
    requires
        start <= end <= v@.len(),
    ensures
        r == spec_component(v@.subrange(start as int, end as int)),
{
    let ghost s = v@.subrange(start as int, end as int);
    if start == end {
        return None;
    }
    let mut acc: u64 = 0;
    let mut i = start;
    while i < end
        invariant
            start <= i <= end <= v@.len(),
            s == v@.subrange(start as int, end as int),
            start < end,
            all_digits(v@.subrange(start as int, i as int)),
            acc as nat == dec_value(v@.subrange(start as int, i as int)),
        decreases end - i,
    {
        let ghost p = v@.subrange(start as int, i as int);
        let ghost q = v@.subrange(start as int, i + 1);
        assert(q =~= p.push(v@[i as int]));
        let c = v[i];
        if c < 48 || c > 57 {
            assert(s[i - start as int] == v@[i as int]);
            assert(!all_digits(s));
            return None;
        }
        assert(q.drop_last() =~= p);
        assert(dec_value(q) == acc * 10 + (c - 48));
        let widened = match acc.checked_mul(10) {
            Some(w) => w.checked_add((c - 48) as u64),
            None => None,
        };
        match widened {
            Some(w) => {
                acc = w;
            },
            None => {
                proof {
                    if all_digits(s) {
                        assert(q =~= s.subrange(0, i + 1 - start));
                        lemma_dec_value_take_le(s, i + 1 - start);
                    }
                }
                return None;
            },
        }
        i = i + 1;
    }
    assert(v@.subrange(start as int, end as int) =~= s);
    Some(acc)
}

/// Reads the version portion of a byte vector as a version triple,
/// exactly as `spec_version` does.
fn parse_version(v: &Vec<u8>) -> (r: Option<(u64, u64, u64)>)
    ensures
        r == spec_version(v@),
{
    let p1 = find_dot_exec(v, 0);
    if p1 == v.len() {
        assert(v@.subrange(0, p1 as int) =~= v@);
        match parse_component(v, 0, p1) {
            Some(a) => Some((a, 0, 0)),
            None => None,
        }
    } else {
        let p2 = find_dot_exec(v, p1 + 1);
        if p2 == v.len() {
            match (parse_component(v, 0, p1), parse_component(v, p1 + 1, v.len())) {
                (Some(a), Some(b)) => Some((a, b, 0)),
                _ => None,
            }
        } else {
            let p3 = find_dot_exec(v, p2 + 1);
            if p3 != v.len() {
                None
            } else {
                match (
                    parse_component(v, 0, p1),
                    parse_component(v, p1 + 1, p2),
                    parse_component(v, p2 + 1, v.len()),
                ) {
                    (Some(a), Some(b), Some(c)) => Some((a, b, c)),
                    _ => None,
                }
            }
        }
    }
}

/// Reports whether the name carries the archive suffix after a non-empty
/// version portion, exactly as `name_compressed` reads it.
fn is_compressed_name(name: &Vec<u8>) -> (r: bool)
    ensures
        r == name_compressed(name@),
{
    if name.len() < 28 {
        return false;
    }
    let b = name.len() - 7;
    name[b] == 46 && name[b + 1] == 116 && name[b + 2] == 97 && name[b + 3] == 114 && name[b + 4]
        == 46 && name[b + 5] == 103 && name[b + 6] == 122
}

/// Takes a snapshot name apart. Returns `FilenameFormat` exactly when the
/// outer shape is wrong (timestamp, separator, or an empty remainder), and
/// `VersionFormat` exactly when the shape holds but the version portion is
/// not 1 to 3 dot-separated decimal components that fit in 64 bits.
pub fn parse_name(name: &Vec<u8>) -> (r: Result<ParsedName, RetentionError>)
    ensures
        match r {
            Ok(p) => {
                &&& name_shape_ok(name@)
                &&& spec_version(version_part(name@)) == Some((p.major, p.minor, p.patch))
                &&& p.ts@ == name@.subrange(0, 19)
                &&& p.compressed == name_compressed(name@)
            },
            Err(e) => {
                &&& !name_ok(name@)
                &&& (e == RetentionError::FilenameFormat <==> !name_shape_ok(name@))
                &&& (e == RetentionError::VersionFormat <==> name_shape_ok(name@) && spec_version(
                    version_part(name@),
                ) is None)
            },
        },
{
    if name.len() < 21 {
        return Err(RetentionError::FilenameFormat);
    }
    if !check_timestamp(name) {
        return Err(RetentionError::FilenameFormat);
    }
    if name[19] != 95 {
        return Err(RetentionError::FilenameFormat);
    }
    let compressed = is_compressed_name(name);
    let vend = if compressed {
        name.len() - 7
    } else {
        name.len()
    };
    let vpart = copy_range(name, 20, vend);
    assert(vpart@ =~= version_part(name@));
    match parse_version(&vpart) {
        Some((a, b, c)) => Ok(
            ParsedName { ts: copy_range(name, 0, 19), major: a, minor: b, patch: c, compressed },
        ),
        None => Err(RetentionError::VersionFormat),
    }
}

/// The decimal numeral of `n`, most significant digit first, no leading
/// zeros.
pub open spec fn dec_repr(n: nat) -> Seq<u8>
    decreases n,
{
    if n < 10 {
        seq![(48 + n) as u8]
    } else {
        dec_repr(n / 10).push((48 + n % 10) as u8)
    }
}

/// A decimal numeral consists of digits and is never empty.
pub proof fn lemma_dec_repr_digits(n: nat)
    ensures
        all_digits(dec_repr(n)),
        dec_repr(n).len() >= 1,
    decreases n,
{
    if n >= 10 {
        lemma_dec_repr_digits(n / 10);
        assert forall|i: int| 0 <= i < dec_repr(n).len() implies is_ascii_digit(
            #[trigger] dec_repr(n)[i],
        ) by {
            if i < dec_repr(n / 10).len() {
                assert(dec_repr(n)[i] == dec_repr(n / 10)[i]);
            }
        }
    }
}

/// Reading the decimal numeral of `n` back gives `n`.
pub proof fn lemma_dec_repr_value(n: nat)
    ensures
        dec_value(dec_repr(n)) == n,
    decreases n,
{
    if n < 10 {
        let s = dec_repr(n);
        assert(s == seq![(48 + n) as u8]);
        assert(s.len() == 1);
        assert(s.drop_last() =~= Seq::<u8>::empty());
        assert(dec_value(s.drop_last()) == 0);
        assert(s.last() == (48 + n) as u8);
        assert((48 + n) as u8 == 48 + n);
        assert(dec_value(s) == 0 * 10 + ((s.last() - 48) as nat));
        assert(((s.last() - 48) as nat) == n);
    } else {
        lemma_dec_repr_value(n / 10);
        let s = dec_repr(n);
        assert(s == dec_repr(n / 10).push((48 + n % 10) as u8));
        assert(s.drop_last() =~= dec_repr(n / 10));
        assert(s.last() == (48 + n % 10) as u8);
        assert((48 + n % 10) as u8 == 48 + n % 10);
        assert(dec_value(s) == dec_value(s.drop_last()) * 10 + ((s.last() - 48) as nat));
        assert(dec_value(s.drop_last()) == n / 10);
        assert(((s.last() - 48) as nat) == n % 10);
        assert(n / 10 * 10 + n % 10 == n) by {
            vstd::arithmetic::div_mod::lemma_fundamental_div_mod(n as int, 10);
        }
    }
}

/// Writes `n` in decimal, mirroring `dec_repr`.
pub fn u64_to_dec(n: u64) -> (r: Vec<u8>)
    ensures
        r@ == dec_repr(n as nat),
    decreases n,
{
    if n < 10 {
        let mut out: Vec<u8> = Vec::new();
        out.push(48 + n as u8);
        assert(out@ =~= dec_repr(n as nat));
        out
    } else {
        let mut out = u64_to_dec(n / 10);
        out.push(48 + (n % 10) as u8);
        assert(out@ =~= dec_repr(n as nat));
        out
    }
}

/// The canonical rendering of a snapshot: the timestamp, an underscore,
/// the three version components dot-separated (trailing zeros written
/// out), and the archive suffix when compressed.
pub open spec fn spec_format_name(
    ts: Seq<u8>,
    major: u64,
    minor: u64,
    patch: u64,
    compressed: bool,
) -> Seq<u8> {
    ts + seq![95u8] + dec_repr(major as nat) + seq![46u8] + dec_repr(minor as nat) + seq![46u8]
        + dec_repr(patch as nat) + (if compressed {
        targz_seq()
    } else {
        Seq::<u8>::empty()
    })
}

/// Appends all bytes of `src` to `dst`.
fn push_all(dst: &mut Vec<u8>, src: &Vec<u8>)
    ensures
        final(dst)@ == old(dst)@ + src@,
{
    let mut i: usize = 0;
    while i < src.len()
        invariant
            0 <= i <= src@.len(),
            dst@ == old(dst)@ + src@.subrange(0, i as int),
        decreases src@.len() - i,
    {
        dst.push(src[i]);
        assert(old(dst)@ + src@.subrange(0, i + 1) =~= (old(dst)@ + src@.subrange(0, i as int)).push(
            src@[i as int],
        ));
        i = i + 1;
    }
    assert(src@.subrange(0, src@.len() as int) =~= src@);
}

/// Renders a snapshot name, mirroring `spec_format_name`.
pub fn format_name(ts: &Vec<u8>, major: u64, minor: u64, patch: u64, compressed: bool) -> (r: Vec<
    u8,
>)
    ensures
        r@ == spec_format_name(ts@, major, minor, patch, compressed),
{
    let mut out: Vec<u8> = Vec::new();
    push_all(&mut out, ts);
    assert(out@ =~= ts@);
    out.push(95);
    let a = u64_to_dec(major);
    push_all(&mut out, &a);
    out.push(46);
    let b = u64_to_dec(minor);
    push_all(&mut out, &b);
    out.push(46);
    let c = u64_to_dec(patch);
    push_all(&mut out, &c);
    if compressed {
        out.push(46);
        out.push(116);
        out.push(97);
        out.push(114);
        out.push(46);
        out.push(103);
        out.push(122);
    }
    assert(out@ =~= spec_format_name(ts@, major, minor, patch, compressed));
    out
}

/// `find_dot` lands on `p` whenever no byte before `p` is a dot and `p`
/// itself is a dot or the end.
proof fn lemma_find_dot_at(s: Seq<u8>, from: int, p: int)
    requires
        0 <= from <= p <= s.len(),
        forall|j: int| from <= j < p ==> s[j] != 46,
        p == s.len() || s[p] == 46,
    ensures
        find_dot(s, from) == p,
    decreases p - from,
{
    if from < p {
        lemma_find_dot_at(s, from + 1, p);
    }
}

/// Round trip: a name rendered from a well-formed timestamp and a version
/// triple parses back to exactly that timestamp, that triple, and that
/// compression mark (the rendering writes all three version components, so
/// a parsed name with elided trailing components re-renders zero-padded).
#[verifier::rlimit(100)]
pub proof fn lemma_name_round_trip(
    ts: Seq<u8>,
    major: u64,
    minor: u64,
    patch: u64,
    compressed: bool,
)
    requires
        timestamp_wf(ts),
    ensures
        ({
            let n = spec_format_name(ts, major, minor, patch, compressed);
            &&& name_shape_ok(n)
            &&& name_compressed(n) == compressed
            &&& n.subrange(0, 19) == ts
            &&& spec_version(version_part(n)) == Some((major, minor, patch))
        }),
{
    let n = spec_format_name(ts, major, minor, patch, compressed);
    let a = dec_repr(major as nat);
    let b = dec_repr(minor as nat);
    let c = dec_repr(patch as nat);
    lemma_dec_repr_digits(major as nat);
    lemma_dec_repr_digits(minor as nat);
    lemma_dec_repr_digits(patch as nat);
    lemma_dec_repr_value(major as nat);
    lemma_dec_repr_value(minor as nat);
    lemma_dec_repr_value(patch as nat);
    let v = a + seq![46u8] + b + seq![46u8] + c;
    let tail: Seq<u8> = if compressed {
        targz_seq()
    } else {
        Seq::<u8>::empty()
    };
    assert(n =~= ts + seq![95u8] + v + tail);
    assert(n.subrange(0, 19) =~= ts);
    assert(n[19] == 95);

    // Which bytes of the version portion are dots, and what stands between.
    let la = a.len() as int;
    let lb = b.len() as int;
    let lc = c.len() as int;
    assert(v.len() == la + 1 + lb + 1 + lc);
    assert forall|j: int| 0 <= j < la implies v[j] == a[j] && #[trigger] v[j] != 46 by {
        assert(is_ascii_digit(a[j]));
    }
    assert(v[la] == 46);
    assert forall|j: int| la + 1 <= j < la + 1 + lb implies v[j] == b[j - la - 1]
        && #[trigger] v[j] != 46 by {
        assert(is_ascii_digit(b[j - la - 1]));
    }
    assert(v[la + 1 + lb] == 46);
    assert forall|j: int| la + 1 + lb + 1 <= j < v.len() implies v[j] == c[j - la - 1 - lb - 1]
        && #[trigger] v[j] != 46 by {
        assert(is_ascii_digit(c[j - la - 1 - lb - 1]));
    }

    // The name is marked compressed exactly when the suffix was appended.
    if compressed {
        assert(n.len() >= 28);
        assert(targz_at(n, n.len() - 7));
        assert(name_compressed(n));
    } else {
        assert(n.len() == 19 + 1 + v.len());
        let last = n.len() - 1;
        assert(n[last] == c[lc - 1]);
        assert(is_ascii_digit(c[lc - 1]));
        if n.len() >= 28 {
            assert(n[last] != 122);
            assert(!targz_at(n, n.len() - 7));
        }
        assert(!name_compressed(n));
    }
    assert(version_part(n) =~= v);

    // The version portion parses back into the same triple.
    lemma_find_dot_at(v, 0, la);
    lemma_find_dot_at(v, la + 1, la + 1 + lb);
    lemma_find_dot_at(v, la + 1 + lb + 1, v.len() as int);
    assert(v.subrange(0, la) =~= a);
    assert(v.subrange(la + 1, la + 1 + lb) =~= b);
    assert(v.subrange(la + 1 + lb + 1, v.len() as int) =~= c);
    assert(spec_component(a) == Some(major));
    assert(spec_component(b) == Some(minor));
    assert(spec_component(c) == Some(patch));
    assert(spec_version(v) == Some((major, minor, patch)));
}

} // verus!
