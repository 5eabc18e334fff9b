//! Byte-sequence utilities shared by the codecs: ASCII case folding,
//! whitespace trimming, decimal parsing, searching and splitting, and
//! association lists of byte strings.

use vstd::prelude::*;
use vstd::string::StringSliceAdditionalSpecFns;

use crate::http::{bytes_eq, spec_kvs};

verus! {

/// ASCII whitespace, as `char::is_whitespace` sees bytes below 0x80:
/// tab, line feed, vertical tab, form feed, carriage return and space.
pub open spec fn is_ws(b: u8) -> bool {
    b == 0x09 || b == 0x0a || b == 0x0b || b == 0x0c || b == 0x0d || b == 0x20
}

/// ASCII lowercasing of one byte.
pub open spec fn spec_lower(b: u8) -> u8 {
    if 0x41 <= b && b <= 0x5a {
        (b + 0x20) as u8
    } else {
        b
    }
}

/// ASCII lowercasing of a byte sequence.
pub open spec fn spec_lower_bytes(s: Seq<u8>) -> Seq<u8> {
    s.map_values(|b: u8| spec_lower(b))
}

/// ASCII-lowercase every byte of a slice.
pub fn lower_bytes(s: &[u8]) -> (r: Vec<u8>)
    ensures
        r@ == spec_lower_bytes(s@),
{
    let mut v: Vec<u8> = Vec::new();
    let n = s.len();
    let mut i: usize = 0;
    while i < n
        invariant
            n == s@.len(),
            i <= n,
            v@ =~= spec_lower_bytes(s@).take(i as int),
        decreases n - i,
    {
        let b = s[i];
        if 0x41 <= b && b <= 0x5a {
            v.push(b + 0x20);
        } else {
            v.push(b);
        }
        i = i + 1;
    }
    proof {
        assert(spec_lower_bytes(s@).take(n as int) =~= spec_lower_bytes(s@));
    }
    v
}

/// Leading whitespace removed.
pub open spec fn spec_trim_start(s: Seq<u8>) -> Seq<u8>
    decreases s.len(),
{
    if s.len() > 0 && is_ws(s[0]) {
        spec_trim_start(s.skip(1))
    } else {
        s
    }
}

/// Trailing whitespace removed.
pub open spec fn spec_trim_end(s: Seq<u8>) -> Seq<u8>
    decreases s.len(),
{
    if s.len() > 0 && is_ws(s[s.len() - 1]) {
        spec_trim_end(s.take(s.len() - 1))
    } else {
        s
    }
}

/// Whitespace removed from both ends.
pub open spec fn spec_trim(s: Seq<u8>) -> Seq<u8> {
    spec_trim_end(spec_trim_start(s))
}

proof fn lemma_trim_start_skip(s: Seq<u8>, a: int)
    requires
        0 <= a <= s.len(),
        forall|j: int| 0 <= j < a ==> is_ws(s[j]),
    ensures
        spec_trim_start(s) == spec_trim_start(s.skip(a)),
    decreases a,
{
    if a > 0 {
        assert(spec_trim_start(s) == spec_trim_start(s.skip(1)));
        assert(s.skip(1).skip(a - 1) =~= s.skip(a));
        lemma_trim_start_skip(s.skip(1), a - 1);
    } else {
        assert(s.skip(0) =~= s);
    }
}

proof fn lemma_trim_end_take(s: Seq<u8>, z: int)
    requires
        0 <= z <= s.len(),
        forall|j: int| z <= j < s.len() ==> is_ws(s[j]),
    ensures
        spec_trim_end(s) == spec_trim_end(s.take(z)),
    decreases s.len() - z,
{
    if z < s.len() {
        assert(spec_trim_end(s) == spec_trim_end(s.take(s.len() - 1)));
        assert(s.take(s.len() - 1).take(z) =~= s.take(z));
        lemma_trim_end_take(s.take(s.len() - 1), z);
    } else {
        assert(s.take(s.len() as int) =~= s);
    }
}

/// Whether one byte is ASCII whitespace.
pub fn is_ws_exec(b: u8) -> (r: bool)
    ensures
        r == is_ws(b),
{
    b == 0x09 || b == 0x0a || b == 0x0b || b == 0x0c || b == 0x0d || b == 0x20
}

/// Trim ASCII whitespace from both ends of a slice.
pub fn trim_bytes(s: &[u8]) -> (r: Vec<u8>)
    ensures
        r@ == spec_trim(s@),
{
    let n = s.len();
    let mut a: usize = 0;
    while a < n && is_ws_exec(s[a])
        invariant
            n == s@.len(),
            a <= n,
            forall|j: int| 0 <= j < a ==> is_ws(s@[j]),
        decreases n - a,
    {
        a = a + 1;
    }
    proof {
        lemma_trim_start_skip(s@, a as int);
    }
    let mut z: usize = n;
    while z > a && is_ws_exec(s[z - 1])
        invariant
            n == s@.len(),
            a <= z <= n,
            forall|j: int| 0 <= j < a ==> is_ws(s@[j]),
            forall|j: int| z <= j < n ==> is_ws(s@[j]),
        decreases z,
    {
        z = z - 1;
    }
    let ghost t = s@.skip(a as int);
    proof {
        // After dropping the leading run, position 0 of `t` is not
        // whitespace (unless `t` is empty), so trim_start leaves `t` alone.
        if a < n {
            assert(!is_ws(t[0]));
        }
        assert(spec_trim_start(t) == t);
        lemma_trim_end_take(t, z - a);
        assert(t.take(z - a) =~= s@.subrange(a as int, z as int));
        if z > a {
            assert(!is_ws(t.take(z - a)[z - a - 1]));
        }
        assert(spec_trim_end(t.take(z - a)) == t.take(z - a));
    }
    let r = crate::http::slice_to_vec_u8(vstd::slice::slice_subrange(s, a, z));
    r
}

/// A decimal digit.
pub open spec fn is_digit(b: u8) -> bool {
    0x30 <= b && b <= 0x39
}

/// The value of a digit string, most significant digit first.
pub open spec fn digits_val(s: Seq<u8>) -> int
    decreases s.len(),
{
    if s.len() == 0 {
        0
    } else {
        digits_val(s.take(s.len() - 1)) * 10 + (s[s.len() - 1] - 0x30)
    }
}

/// Every byte a decimal digit.
pub open spec fn all_digits(s: Seq<u8>) -> bool {
    forall|j: int| 0 <= j < s.len() ==> is_digit(s[j])
}

/// An optional leading `+` removed.
pub open spec fn strip_plus(s: Seq<u8>) -> Seq<u8> {
    if s.len() > 0 && s[0] == 0x2b {
        s.skip(1)
    } else {
        s
    }
}

/// What `usize::from_str` accepts: an optional leading `+`, then one or
/// more digits, the value fitting in `usize`.
pub open spec fn spec_parse_usize(s: Seq<u8>) -> Option<int> {
    if strip_plus(s).len() > 0 && all_digits(strip_plus(s)) && digits_val(strip_plus(s))
        <= usize::MAX {
        Some(digits_val(strip_plus(s)))
    } else {
        None
    }
}

pub proof fn lemma_digits_val_bounds(s: Seq<u8>)
    requires
        forall|j: int| 0 <= j < s.len() ==> is_digit(s[j]),
    ensures
        digits_val(s) >= 0,
    decreases s.len(),
{
    if s.len() > 0 {
        lemma_digits_val_bounds(s.take(s.len() - 1));
    }
}

/// Parse a decimal `usize`, exactly as the standard unsigned parser does.
pub fn parse_usize(s: &[u8]) -> (r: Option<usize>)
    ensures
        match r {
            Some(v) => spec_parse_usize(s@) == Some(v as int),
            None => spec_parse_usize(s@) is None,
        },
{
    let n = s.len();
    let start: usize = if n > 0 && s[0] == 0x2b {
        1
    } else {
        0
    };
    let ghost d = if start == 1 {
        s@.skip(1)
    } else {
        s@
    };
    if n == start {
        return None;
    }
    let mut acc: usize = 0;
    let mut i: usize = start;
    while i < n
        invariant
            n == s@.len(),
            start <= i <= n,
            start == 0 || start == 1,
            start == 1 <==> n > 0 && s@[0] == 0x2b,
            d == if start == 1 {
                s@.skip(1)
            } else {
                s@
            },
            forall|j: int| 0 <= j < i - start ==> is_digit(d[j]),
            acc == digits_val(d.take(i - start)),
        decreases n - i,
    {
        let b = s[i];
        if !(0x30 <= b && b <= 0x39) {
            proof {
                assert(strip_plus(s@) == d);
                assert(!is_digit(d[i - start]));
                assert(!all_digits(d));
            }
            return None;
        }
        let dig = (b - 0x30) as usize;
        if acc > (usize::MAX - dig) / 10 {
            proof {
                let pre = d.take(i + 1 - start);
                assert(pre.take(pre.len() - 1) =~= d.take(i - start));
                assert(pre[pre.len() - 1] == d[i - start]);
                assert(digits_val(pre) == acc * 10 + dig);
                assert((acc as int) * 10 + (dig as int) > usize::MAX as int)
                    by (nonlinear_arith)
                    requires
                        acc as int > ((usize::MAX as int) - dig) / 10,
                        0 <= dig <= 9,
                        acc >= 0,
                ;
                assert(strip_plus(s@) == d);
                if all_digits(d) {
                    lemma_digits_monotone_all(d, i + 1 - start);
                    assert(digits_val(d) >= digits_val(pre));
                }
            }
            return None;
        }
        proof {
            let pre = d.take(i + 1 - start);
            assert(pre.take(pre.len() - 1) =~= d.take(i - start));
            assert(pre[pre.len() - 1] == d[i - start]);
        }
        acc = acc * 10 + dig;
        i = i + 1;
    }
    proof {
        assert(d.take(n - start) =~= d);
        assert(strip_plus(s@) == d);
        assert(all_digits(d));
    }
    Some(acc)
}

/// A digit string's value only grows as digits are appended.
proof fn lemma_digits_monotone_all(d: Seq<u8>, i: int)
    requires
        0 <= i <= d.len(),
        forall|k: int| 0 <= k < d.len() ==> is_digit(d[k]),
    ensures
        digits_val(d) >= digits_val(d.take(i)),
    decreases d.len() - i,
{
    if i < d.len() {
        let t = d.take(i + 1);
        assert(t.take(t.len() - 1) =~= d.take(i));
        lemma_digits_val_bounds(d.take(i));
        assert(digits_val(t) == digits_val(d.take(i)) * 10 + (d[i] - 0x30));
        assert(digits_val(t) >= digits_val(d.take(i)));
        assert(d.take(i + 1).take(d.take(i + 1).len() as int) =~= d.take(i + 1));
        lemma_digits_monotone_all(d, i + 1);
        assert(d.take(d.len() as int) =~= d);
    } else {
        assert(d.take(d.len() as int) =~= d);
    }
}

/// The first occurrence of byte `c` in `s` at or after `i`.
pub open spec fn find_byte(s: Seq<u8>, c: u8, i: int) -> Option<int>
    decreases s.len() - i,
    when 0 <= i
{
    if i >= s.len() {
        None
    } else if s[i] == c {
        Some(i)
    } else {
        find_byte(s, c, i + 1)
    }
}

pub proof fn lemma_find_byte_bounds(s: Seq<u8>, c: u8, i: int)
    requires
        0 <= i,
    ensures
        match find_byte(s, c, i) {
            Some(j) => i <= j < s.len() && s[j] == c && forall|k: int| i <= k < j ==> s[k] != c,
            None => forall|k: int| i <= k < s.len() ==> s[k] != c,
        },
    decreases s.len() - i,
{
    if i < s.len() && s[i] != c {
        lemma_find_byte_bounds(s, c, i + 1);
    }
}

/// Find the first occurrence of `c` in `s`.
pub fn find_byte_exec(s: &[u8], c: u8) -> (r: Option<usize>)
    ensures
        match r {
            Some(j) => find_byte(s@, c, 0) == Some(j as int),
            None => find_byte(s@, c, 0) is None,
        },
{
    let n = s.len();
    let mut i: usize = 0;
    while i < n
        invariant
            n == s@.len(),
            i <= n,
            find_byte(s@, c, 0) == find_byte(s@, c, i as int),
        decreases n - i,
    {
        if s[i] == c {
            return Some(i);
        }
        i = i + 1;
    }
    None
}

/// The first CR LF pair in `s` at or after `i`.
pub open spec fn find_crlf(s: Seq<u8>, i: int) -> Option<int>
    decreases s.len() - i,
    when 0 <= i
{
    if i + 2 > s.len() {
        None
    } else if s[i] == 0x0d && s[i + 1] == 0x0a {
        Some(i)
    } else {
        find_crlf(s, i + 1)
    }
}

pub proof fn lemma_find_crlf_bounds(s: Seq<u8>, i: int)
    requires
        0 <= i,
    ensures
        match find_crlf(s, i) {
            Some(j) => i <= j && j + 2 <= s.len() && s[j] == 0x0d && s[j + 1] == 0x0a && forall|
                k: int,
            |
                i <= k < j ==> !((#[trigger] s[k]) == 0x0d && s[k + 1] == 0x0a),
            None => forall|k: int|
                i <= k && k + 2 <= s.len() ==> !((#[trigger] s[k]) == 0x0d && s[k + 1] == 0x0a),
        },
    decreases s.len() - i,
{
    if i + 2 <= s.len() && !(s[i] == 0x0d && s[i + 1] == 0x0a) {
        lemma_find_crlf_bounds(s, i + 1);
    }
}

/// Find the first CR LF pair in `s`.
pub fn find_crlf_exec(s: &[u8]) -> (r: Option<usize>)
    ensures
        match r {
            Some(j) => find_crlf(s@, 0) == Some(j as int) && j + 2 <= s@.len(),
            None => find_crlf(s@, 0) is None,
        },
{
    let n = s.len();
    if n < 2 {
        return None;
    }
    let mut i: usize = 0;
    while i <= n - 2
        invariant
            n == s@.len(),
            n >= 2,
            i <= n - 1,
            find_crlf(s@, 0) == find_crlf(s@, i as int),
        decreases n - i,
    {
        if s[i] == 0x0d && s[i + 1] == 0x0a {
            return Some(i);
        }
        i = i + 1;
    }
    None
}

/// Split `s` at every occurrence of `c`; the separators are dropped and
/// empty segments are kept, as `str::split` does.
pub open spec fn spec_split(s: Seq<u8>, c: u8) -> Seq<Seq<u8>>
    decreases s.len(),
    via spec_split_decreases
{
    match find_byte(s, c, 0) {
        None => seq![s],
        Some(i) => seq![s.take(i)] + spec_split(s.skip(i + 1), c),
    }
}

#[via_fn]
proof fn spec_split_decreases(s: Seq<u8>, c: u8) {
    lemma_find_byte_bounds(s, c, 0);
}

/// The lines of a header section: split at every CR LF.
pub open spec fn spec_lines(s: Seq<u8>) -> Seq<Seq<u8>>
    decreases s.len(),
    via spec_lines_decreases
{
    match find_crlf(s, 0) {
        None => seq![s],
        Some(i) => seq![s.take(i)] + spec_lines(s.skip(i + 2)),
    }
}

#[via_fn]
proof fn spec_lines_decreases(s: Seq<u8>) {
    lemma_find_crlf_bounds(s, 0);
}

/// Split a slice at every occurrence of `c`.
pub fn split_exec(s: &[u8], c: u8) -> (r: Vec<Vec<u8>>)
    ensures
        r@.map_values(|x: Vec<u8>| x@) == spec_split(s@, c),
    decreases s@.len(),
{
    let mut out: Vec<Vec<u8>> = Vec::new();
    match find_byte_exec(s, c) {
        None => {
            out.push(crate::http::slice_to_vec_u8(s));
            proof {
                assert(out@.map_values(|x: Vec<u8>| x@) =~= spec_split(s@, c));
            }
            out
        },
        Some(i) => {
            let sl = s.len();
            proof {
                lemma_find_byte_bounds(s@, c, 0);
                assert(i < sl);
            }
            let head = crate::http::slice_to_vec_u8(
                vstd::slice::slice_subrange(s, 0, i),
            );
            let tail = split_exec(vstd::slice::slice_subrange(s, i + 1, sl), c);
            out.push(head);
            let mut k: usize = 0;
            let tn = tail.len();
            proof {
                assert(s@.subrange(0, i as int) =~= s@.take(i as int));
                assert(s@.subrange(i + 1, s@.len() as int) =~= s@.skip(i + 1));
            }
            while k < tn
                invariant
                    tn == tail@.len(),
                    k <= tn,
                    out@.len() == k + 1,
                    out@[0]@ == s@.take(i as int),
                    forall|j: int| 0 <= j < k ==> out@[j + 1]@ == tail@[j]@,
                decreases tn - k,
            {
                let item = clone_vec_u8(&tail[k]);
                proof {
                    assert(item@ == tail@[k as int]@);
                }
                out.push(item);
                k = k + 1;
            }
            proof {
                let lhs = out@.map_values(|x: Vec<u8>| x@);
                let rhs = seq![s@.take(i as int)] + spec_split(s@.skip(i + 1), c);
                let tv = tail@.map_values(|x: Vec<u8>| x@);
                assert(tv == spec_split(s@.skip(i + 1), c));
                assert forall|j: int| 0 <= j < lhs.len() implies lhs[j] == rhs[j] by {
                    if j > 0 {
                        assert(out@[j]@ == tail@[j - 1]@);
                        assert(tv[j - 1] == tail@[j - 1]@);
                    }
                }
                assert(lhs =~= rhs);
            }
            out
        },
    }
}

/// Clone a byte vector.
pub fn clone_vec_u8(v: &Vec<u8>) -> (r: Vec<u8>)
    ensures
        r@ == v@,
{
    crate::http::slice_to_vec_u8(v.as_slice())
}

/// Insert into an association list of byte vectors, replacing the first
/// pair with an equal key, as a map insertion would.
pub fn insert_kv(kvs: &mut Vec<(Vec<u8>, Vec<u8>)>, key: Vec<u8>, value: Vec<u8>)
    ensures
        spec_kvs(final(kvs)@) == crate::http::spec_insert(
            spec_kvs(old(kvs)@),
            key@,
            value@,
        ),
{
    let n = kvs.len();
    let mut i: usize = 0;
    while i < n
        invariant
            n == kvs@.len(),
            i <= n,
            *kvs == *old(kvs),
            forall|j: int| 0 <= j < i ==> spec_kvs(kvs@)[j].0 != key@,
        decreases n - i,
    {
        if bytes_eq(kvs[i].0.as_slice(), key.as_slice()) {
            proof {
                lemma_insert_found(spec_kvs(kvs@), key@, value@, i as int);
            }
            kvs.set(i, (key, value));
            proof {
                assert(spec_kvs(kvs@) =~= spec_kvs(old(kvs)@).update(
                    i as int,
                    (key@, value@),
                ));
            }
            return ;
        }
        i = i + 1;
    }
    proof {
        lemma_insert_missing(spec_kvs(kvs@), key@, value@);
    }
    kvs.push((key, value));
    proof {
        assert(spec_kvs(kvs@) =~= spec_kvs(old(kvs)@).push((key@, value@)));
    }
}

proof fn lemma_insert_found(kvs: Seq<(Seq<u8>, Seq<u8>)>, key: Seq<u8>, value: Seq<u8>, i: int)
    requires
        0 <= i < kvs.len(),
        kvs[i].0 == key,
        forall|j: int| 0 <= j < i ==> kvs[j].0 != key,
    ensures
        crate::http::spec_insert(kvs, key, value) == kvs.update(i, (key, value)),
    decreases i,
{
    if i == 0 {
        assert(crate::http::spec_insert(kvs, key, value) == seq![(key, value)] + kvs.skip(1));
        assert(seq![(key, value)] + kvs.skip(1) =~= kvs.update(0, (key, value)));
    } else {
        assert(kvs[0].0 != key);
        lemma_insert_found(kvs.skip(1), key, value, i - 1);
        assert(seq![kvs[0]] + kvs.skip(1).update(i - 1, (key, value)) =~= kvs.update(
            i,
            (key, value),
        ));
    }
}

proof fn lemma_insert_missing(kvs: Seq<(Seq<u8>, Seq<u8>)>, key: Seq<u8>, value: Seq<u8>)
    requires
        forall|j: int| 0 <= j < kvs.len() ==> kvs[j].0 != key,
    ensures
        crate::http::spec_insert(kvs, key, value) == kvs.push((key, value)),
    decreases kvs.len(),
{
    if kvs.len() == 0 {
        assert(crate::http::spec_insert(kvs, key, value) =~= kvs.push((key, value)));
    } else {
        lemma_insert_missing(kvs.skip(1), key, value);
        assert(seq![kvs[0]] + kvs.skip(1).push((key, value)) =~= kvs.push((key, value)));
    }
}

/// Look a key up in an association list of byte vectors.
pub fn lookup_kv<'a>(kvs: &'a Vec<(Vec<u8>, Vec<u8>)>, key: &[u8]) -> (r: Option<&'a Vec<u8>>)
    ensures
        match r {
            Some(v) => crate::http::spec_lookup(spec_kvs(kvs@), key@) == Some(v@),
            None => crate::http::spec_lookup(spec_kvs(kvs@), key@) is None,
        },
{
    let n = kvs.len();
    let mut i: usize = 0;
    while i < n
        invariant
            n == kvs@.len(),
            i <= n,
            forall|j: int| 0 <= j < i ==> spec_kvs(kvs@)[j].0 != key@,
        decreases n - i,
    {
        if bytes_eq(kvs[i].0.as_slice(), key) {
            proof {
                lemma_lookup_found(spec_kvs(kvs@), key@, i as int);
            }
            return Some(&kvs[i].1);
        }
        i = i + 1;
    }
    proof {
        lemma_lookup_missing(spec_kvs(kvs@), key@);
    }
    None
}

proof fn lemma_lookup_found(kvs: Seq<(Seq<u8>, Seq<u8>)>, key: Seq<u8>, i: int)
    requires
        0 <= i < kvs.len(),
        kvs[i].0 == key,
        forall|j: int| 0 <= j < i ==> kvs[j].0 != key,
    ensures
        crate::http::spec_lookup(kvs, key) == Some(kvs[i].1),
    decreases i,
{
    if i > 0 {
        lemma_lookup_found(kvs.skip(1), key, i - 1);
    }
}

proof fn lemma_lookup_missing(kvs: Seq<(Seq<u8>, Seq<u8>)>, key: Seq<u8>)
    requires
        forall|j: int| 0 <= j < kvs.len() ==> kvs[j].0 != key,
    ensures
        crate::http::spec_lookup(kvs, key) is None,
    decreases kvs.len(),
{
    if kvs.len() > 0 {
        lemma_lookup_missing(kvs.skip(1), key);
    }
}

/// A path that begins with a slash names the root.
pub open spec fn spec_is_abs(p: Seq<u8>) -> bool {
    p.len() > 0 && p[0] == 0x2f
}

/// A path segment worth keeping: non-empty and not the current
/// directory.
pub open spec fn spec_keep_seg(s: Seq<u8>) -> bool {
    s.len() > 0 && s != ".".spec_bytes()
}

/// The kept segments among the slash-separated parts.
pub open spec fn spec_segs(parts: Seq<Seq<u8>>) -> Seq<Seq<u8>>
    decreases parts.len(),
{
    if parts.len() == 0 {
        Seq::empty()
    } else if spec_keep_seg(parts[0]) {
        seq![parts[0]] + spec_segs(parts.skip(1))
    } else {
        spec_segs(parts.skip(1))
    }
}

/// A path's segments: the parts between slashes, empty parts and `.`
/// dropped.
pub open spec fn spec_segments(p: Seq<u8>) -> Seq<Seq<u8>> {
    spec_segs(spec_split(p, 0x2f))
}

/// A path is sane when it is relative and climbs to no parent
/// directory: not absolute, and no `..` part.
pub open spec fn spec_path_is_sane(p: Seq<u8>) -> bool {
    &&& !spec_is_abs(p)
    &&& forall|i: int|
        0 <= i < spec_split(p, 0x2f).len() ==> spec_split(p, 0x2f)[i] != "..".spec_bytes()
}

proof fn lemma_segs_snoc(parts: Seq<Seq<u8>>, i: int)
    requires
        0 <= i < parts.len(),
    ensures
        spec_segs(parts.take(i + 1)) == if spec_keep_seg(parts[i]) {
            spec_segs(parts.take(i)) + seq![parts[i]]
        } else {
            spec_segs(parts.take(i))
        },
    decreases i,
{
    if i == 0 {
        assert(parts.take(1)[0] == parts[0]);
        assert(parts.take(1).skip(1) =~= Seq::<Seq<u8>>::empty());
        assert(parts.take(0) =~= Seq::<Seq<u8>>::empty());
        if spec_keep_seg(parts[0]) {
            assert(spec_segs(parts.take(1)) =~= spec_segs(parts.take(0)) + seq![parts[0]]);
        }
    } else {
        assert(parts.take(i + 1).skip(1) =~= parts.skip(1).take(i));
        assert(parts.take(i).skip(1) =~= parts.skip(1).take(i - 1));
        lemma_segs_snoc(parts.skip(1), i - 1);
        assert(parts.take(i + 1)[0] == parts[0]);
        assert(parts.take(i)[0] == parts[0]);
        assert(parts.skip(1)[i - 1] == parts[i]);
        if spec_keep_seg(parts[0]) {
            if spec_keep_seg(parts[i]) {
                assert(seq![parts[0]] + (spec_segs(parts.skip(1).take(i - 1)) + seq![parts[i]])
                    =~= (seq![parts[0]] + spec_segs(parts.skip(1).take(i - 1))) + seq![parts[i]]);
            }
        }
    }
}

/// The kept segments of a path.
pub fn path_segments(p: &[u8]) -> (r: Vec<Vec<u8>>)
    ensures
        r@.map_values(|x: Vec<u8>| x@) == spec_segments(p@),
{
    let parts = split_exec(p, 0x2f);
    let ghost pv = parts@.map_values(|x: Vec<u8>| x@);
    let mut out: Vec<Vec<u8>> = Vec::new();
    let n = parts.len();
    let mut i: usize = 0;
    proof {
        assert(pv.take(0) =~= Seq::<Seq<u8>>::empty());
        assert(out@.map_values(|x: Vec<u8>| x@) =~= spec_segs(pv.take(0)));
    }
    while i < n
        invariant
            n == parts@.len(),
            pv == parts@.map_values(|x: Vec<u8>| x@),
            i <= n,
            out@.map_values(|x: Vec<u8>| x@) == spec_segs(pv.take(i as int)),
        decreases n - i,
    {
        let part = &parts[i];
        proof {
            lemma_segs_snoc(pv, i as int);
            assert(pv[i as int] == parts@[i as int]@);
        }
        if part.len() > 0 && !bytes_eq(part.as_slice(), ".".as_bytes()) {
            let item = clone_vec_u8(part);
            out.push(item);
            proof {
                assert(out@.map_values(|x: Vec<u8>| x@) =~= spec_segs(pv.take(i as int))
                    + seq![pv[i as int]]);
            }
        } else {
            proof {
                assert(!spec_keep_seg(pv[i as int]));
            }
        }
        i = i + 1;
    }
    proof {
        assert(pv.take(n as int) =~= pv);
    }
    out
}

/// Whether a path is sane: relative, with no parent-directory part.
pub fn path_is_sane(path: &[u8]) -> (r: bool)
    ensures
        r == spec_path_is_sane(path@),
{
    if path.len() > 0 && path[0] == 0x2f {
        return false;
    }
    let parts = split_exec(path, 0x2f);
    let ghost pv = parts@.map_values(|x: Vec<u8>| x@);
    let n = parts.len();
    let mut i: usize = 0;
    while i < n
        invariant
            n == parts@.len(),
            pv == parts@.map_values(|x: Vec<u8>| x@),
            pv == spec_split(path@, 0x2f),
            i <= n,
            forall|j: int| 0 <= j < i ==> pv[j] != "..".spec_bytes(),
        decreases n - i,
    {
        if bytes_eq(parts[i].as_slice(), "..".as_bytes()) {
            proof {
                assert(pv[i as int] == "..".spec_bytes());
            }
            return false;
        }
        i = i + 1;
    }
    true
}

/// Segment-wise prefix: both paths name the same root kind and every
/// segment of `prefix` begins `path`.
pub open spec fn spec_path_starts_with(path: Seq<u8>, prefix: Seq<u8>) -> bool {
    &&& spec_is_abs(path) == spec_is_abs(prefix)
    &&& spec_segments(prefix).len() <= spec_segments(path).len()
    &&& spec_segments(path).take(spec_segments(prefix).len() as int) == spec_segments(prefix)
}

/// The joined form of a segment list, slash-separated.
pub open spec fn spec_join(segs: Seq<Seq<u8>>) -> Seq<u8>
    decreases segs.len(),
{
    if segs.len() == 0 {
        Seq::empty()
    } else if segs.len() == 1 {
        segs[0]
    } else {
        segs[0] + seq![0x2fu8] + spec_join(segs.skip(1))
    }
}

/// What remains of `path` after stripping `prefix`, rejoined with
/// slashes.
pub open spec fn spec_strip_prefix(path: Seq<u8>, prefix: Seq<u8>) -> Seq<u8> {
    spec_join(spec_segments(path).skip(spec_segments(prefix).len() as int))
}

/// Whether `path` starts with `prefix`, segment-wise.
pub fn path_starts_with(path: &[u8], prefix: &[u8]) -> (r: bool)
    ensures
        r == spec_path_starts_with(path@, prefix@),
{
    let pa = path.len() > 0 && path[0] == 0x2f;
    let pb = prefix.len() > 0 && prefix[0] == 0x2f;
    if pa != pb {
        return false;
    }
    let sp = path_segments(path);
    let sq = path_segments(prefix);
    let ghost spv = sp@.map_values(|x: Vec<u8>| x@);
    let ghost sqv = sq@.map_values(|x: Vec<u8>| x@);
    if sq.len() > sp.len() {
        return false;
    }
    let n = sq.len();
    let mut i: usize = 0;
    while i < n
        invariant
            n == sq@.len() <= sp@.len(),
            spv == sp@.map_values(|x: Vec<u8>| x@),
            sqv == sq@.map_values(|x: Vec<u8>| x@),
            spv == spec_segments(path@),
            sqv == spec_segments(prefix@),
            i <= n,
            forall|j: int| 0 <= j < i ==> spv[j] == sqv[j],
        decreases n - i,
    {
        if !bytes_eq(sp[i].as_slice(), sq[i].as_slice()) {
            proof {
                assert(spv[i as int] != sqv[i as int]);
                assert(spec_segments(path@).take(n as int)[i as int] != spec_segments(
                    prefix@,
                )[i as int]);
            }
            return false;
        }
        i = i + 1;
    }
    proof {
        assert(spec_segments(path@).take(n as int) =~= spec_segments(prefix@));
    }
    true
}

proof fn lemma_join_snoc(segs: Seq<Seq<u8>>, i: int)
    requires
        0 < i < segs.len(),
    ensures
        spec_join(segs.take(i + 1)) == spec_join(segs.take(i)) + seq![0x2fu8] + segs[i],
    decreases i,
{
    if i == 1 {
        assert(segs.take(2)[0] == segs[0]);
        assert(segs.take(2).skip(1) =~= seq![segs[1]]);
        assert(segs.take(1) =~= seq![segs[0]]);
        assert(spec_join(seq![segs[1]]) == segs[1]);
    } else {
        assert(segs.take(i + 1).skip(1) =~= segs.skip(1).take(i));
        assert(segs.take(i).skip(1) =~= segs.skip(1).take(i - 1));
        lemma_join_snoc(segs.skip(1), i - 1);
        assert(segs.take(i + 1)[0] == segs[0]);
        assert(segs.take(i)[0] == segs[0]);
        assert(segs.skip(1)[i - 1] == segs[i]);
        assert(segs.take(i + 1).len() >= 2);
        assert(segs.take(i).len() >= 2);
        assert(segs[0] + seq![0x2fu8] + (spec_join(segs.skip(1).take(i - 1)) + seq![0x2fu8]
            + segs[i]) =~= (segs[0] + seq![0x2fu8] + spec_join(segs.skip(1).take(i - 1)))
            + seq![0x2fu8] + segs[i]);
    }
}

/// Join segments with slashes.
pub fn join_segments(segs: &Vec<Vec<u8>>, from: usize) -> (r: Vec<u8>)
    requires
        from <= segs@.len(),
    ensures
        r@ == spec_join(segs@.map_values(|x: Vec<u8>| x@).skip(from as int)),
{
    let ghost sv = segs@.map_values(|x: Vec<u8>| x@).skip(from as int);
    let mut out: Vec<u8> = Vec::new();
    let n = segs.len();
    if from >= n {
        proof {
            assert(sv =~= Seq::<Seq<u8>>::empty());
        }
        return out;
    }
    let mut i: usize = from;
    while i < n
        invariant
            from < n == segs@.len(),
            sv == segs@.map_values(|x: Vec<u8>| x@).skip(from as int),
            from <= i <= n,
            i > from ==> out@ == spec_join(sv.take(i - from)),
            i == from ==> out@.len() == 0,
        decreases n - i,
    {
        if i > from {
            out.push(0x2f);
        }
        out.extend_from_slice(segs[i].as_slice());
        proof {
            let k = i - from;
            assert(sv[k as int] == segs@[i as int]@);
            if k == 0 {
                assert(sv.take(1) =~= seq![sv[0]]);
                assert(out@ =~= spec_join(sv.take(1)));
            } else {
                lemma_join_snoc(sv, k as int);
                assert(out@ =~= spec_join(sv.take(k)) + seq![0x2fu8] + sv[k as int]);
            }
        }
        i = i + 1;
    }
    proof {
        assert(sv.take(n - from) =~= sv);
    }
    out
}

} // verus!
