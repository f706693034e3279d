//! Byte-level building blocks shared by the wire-format parsers: ASCII
//! classification, line scanning for CRLF-delimited protocols, case folding,
//! whitespace trimming, and decimal / hexadecimal numerals.
use vstd::prelude::*;
use vstd::slice::slice_index_get;

verus! {

broadcast use vstd::string::is_ascii_spec_bytes;

/// Carriage return, the first byte of the CRLF line terminator.
pub const CR: u8 = 13;

/// Line feed, the second byte of the CRLF line terminator.
pub const LF: u8 = 10;

/// The bytes of an ASCII character sequence, one byte per character.
pub open spec fn ascii_bytes(s: Seq<char>) -> Seq<u8> {
    Seq::new(s.len(), |i: int| s[i] as u8)
}

/// The bytes of an ASCII string literal.
pub fn lit_bytes(s: &str) -> (r: &[u8])
    requires
        s.is_ascii(),
    ensures
        r@ == ascii_bytes(s@),
{
    let r = s.as_bytes();
    proof {
        assert(r@ =~= ascii_bytes(s@));
    }
    r
}

/// Whether the two bytes at `i` are the CRLF terminator.
pub open spec fn crlf_at(s: Seq<u8>, i: int) -> bool {
    &&& 0 <= i
    &&& i + 2 <= s.len()
    &&& s[i] == CR
    &&& s[i + 1] == LF
}

/// Index of the first CRLF terminator in `s`, if any.
pub open spec fn find_crlf_spec(s: Seq<u8>) -> Option<nat>
    decreases s.len(),
{
    if s.len() < 2 {
        None
    } else if s[0] == CR && s[1] == LF {
        Some(0)
    } else {
        match find_crlf_spec(s.skip(1)) {
            None => None,
            Some(i) => Some((i + 1) as nat),
        }
    }
}

/// What `find_crlf_spec` returns: the least CRLF position, or `None` when
/// no CRLF occurs in `s`.
pub proof fn lemma_find_crlf_props(s: Seq<u8>)
    ensures
        match find_crlf_spec(s) {
            Some(i) => crlf_at(s, i as int) && (forall|j: int| 0 <= j < i ==> !crlf_at(s, j)),
            None => forall|j: int| !crlf_at(s, j),
        },
    decreases s.len(),
{
    if s.len() >= 2 && !(s[0] == CR && s[1] == LF) {
        lemma_find_crlf_props(s.skip(1));
        let t = s.skip(1);
        assert(forall|j: int| 0 <= j < t.len() ==> t[j] == s[j + 1]);
        match find_crlf_spec(t) {
            Some(i) => {
                assert(crlf_at(s, i + 1 as int));
                assert forall|j: int| 0 <= j < i + 1 implies !crlf_at(s, j) by {
                    if 1 <= j {
                        assert(!crlf_at(t, j - 1));
                    }
                }
            },
            None => {
                assert forall|j: int| !crlf_at(s, j) by {
                    if 1 <= j && j + 2 <= s.len() {
                        assert(!crlf_at(t, j - 1));
                    }
                }
            },
        }
    }
}

/// A CRLF at the least position determines `find_crlf_spec` exactly.
pub proof fn lemma_find_crlf_at(s: Seq<u8>, k: int)
    requires
        crlf_at(s, k),
        forall|j: int| 0 <= j < k ==> !crlf_at(s, j),
    ensures
        find_crlf_spec(s) == Some(k as nat),
{
    lemma_find_crlf_props(s);
    match find_crlf_spec(s) {
        Some(i) => {
            if i < k {
                assert(!crlf_at(s, i as int));
            } else if k < i {
                assert(!crlf_at(s, k));
            }
        },
        None => {
            assert(!crlf_at(s, k));
        },
    }
}

/// Scans `input` from position `from` for the first CRLF terminator and
/// returns its absolute position.
pub fn find_crlf(input: &[u8], from: usize) -> (r: Option<usize>)
    requires
        from <= input@.len(),
    ensures
        match r {
            Some(i) => from <= i && i + 2 <= input@.len() && find_crlf_spec(
                input@.skip(from as int),
            ) == Some((i - from) as nat),
            None => find_crlf_spec(input@.skip(from as int)) == None::<nat>,
        },
{
    let ghost t = input@.skip(from as int);
    let len = input.len();
    let mut i = from;
    loop
        invariant
            from <= i <= len,
            len == input@.len(),
            t == input@.skip(from as int),
            forall|j: int| from <= j < i ==> !crlf_at(input@, j),
        decreases len - i,
    {
        if len - i < 2 {
            proof {
                assert forall|j: int| 0 <= j && j + 2 <= t.len() implies !crlf_at(t, j) by {
                    assert(t[j] == input@[from + j]);
                    assert(t[j + 1] == input@[from + j + 1]);
                    assert(!crlf_at(input@, from + j));
                }
                lemma_find_crlf_props(t);
                if find_crlf_spec(t) is Some {
                    let k = find_crlf_spec(t)->Some_0;
                    assert(crlf_at(t, k as int));
                }
            }
            return None;
        }
        if *slice_index_get(input, i) == CR && *slice_index_get(input, i + 1) == LF {
            proof {
                let k = i - from;
                assert(t[k] == input@[i as int]);
                assert(t[k + 1] == input@[i + 1]);
                assert(crlf_at(t, k));
                assert forall|j: int| 0 <= j < k implies !crlf_at(t, j) by {
                    assert(t[j] == input@[from + j]);
                    assert(t[j + 1] == input@[from + j + 1]);
                    assert(!crlf_at(input@, from + j));
                }
                lemma_find_crlf_at(t, k);
            }
            return Some(i);
        }
        proof {
            assert(input@[i as int] != CR || input@[i + 1] != LF);
        }
        i = i + 1;
    }
}

/// ASCII whitespace: space, tab, line feed, form feed, carriage return.
pub open spec fn is_ws_byte(b: u8) -> bool {
    b == 32 || b == 9 || b == LF || b == 12 || b == CR
}

/// Whether `b` may appear in a header field name: ASCII alphanumerics and a
/// fixed punctuation set.
pub open spec fn is_token_byte(b: u8) -> bool {
    ||| ('0' as u8) <= b <= ('9' as u8)
    ||| ('A' as u8) <= b <= ('Z' as u8)
    ||| ('a' as u8) <= b <= ('z' as u8)
    ||| b == ('!' as u8)
    ||| b == ('#' as u8)
    ||| b == ('$' as u8)
    ||| b == ('%' as u8)
    ||| b == ('&' as u8)
    ||| b == ('\'' as u8)
    ||| b == ('*' as u8)
    ||| b == ('+' as u8)
    ||| b == ('-' as u8)
    ||| b == ('.' as u8)
    ||| b == ('^' as u8)
    ||| b == ('_' as u8)
    ||| b == ('`' as u8)
    ||| b == ('|' as u8)
    ||| b == ('~' as u8)
}

/// Exec mirror of `is_token_byte`.
pub fn is_token_char(b: u8) -> (r: bool)
    ensures
        r == is_token_byte(b),
{
    (b >= ('0' as u8) && b <= ('9' as u8)) || (b >= ('A' as u8) && b <= ('Z' as u8)) || (b >= ('a'
        as u8) && b <= ('z' as u8)) || b == ('!' as u8) || b == ('#' as u8) || b == ('$' as u8) || b
        == ('%' as u8) || b == ('&' as u8) || b == ('\'' as u8) || b == ('*' as u8) || b == ('+'
        as u8) || b == ('-' as u8) || b == ('.' as u8) || b == ('^' as u8) || b == ('_' as u8) || b
        == ('`' as u8) || b == ('|' as u8) || b == ('~' as u8)
}

/// Exec mirror of `is_ws_byte`.
pub fn is_ws_char(b: u8) -> (r: bool)
    ensures
        r == is_ws_byte(b),
{
    b == 32 || b == 9 || b == LF || b == 12 || b == CR
}

/// ASCII lowercase of one byte: `A`..`Z` fold to `a`..`z`.
pub open spec fn byte_lower(b: u8) -> u8 {
    if ('A' as u8) <= b <= ('Z' as u8) {
        (b + 32) as u8
    } else {
        b
    }
}

/// ASCII lowercase of a byte sequence.
pub open spec fn lower_bytes(s: Seq<u8>) -> Seq<u8> {
    s.map_values(|b: u8| byte_lower(b))
}

/// Copies `a` with ASCII uppercase letters folded to lowercase.
pub fn to_lower(a: &[u8]) -> (r: Vec<u8>)
    ensures
        r@ == lower_bytes(a@),
{
    let mut r: Vec<u8> = Vec::new();
    let len = a.len();
    let mut i: usize = 0;
    while i < len
        invariant
            i <= len,
            len == a@.len(),
            r@ =~= lower_bytes(a@.take(i as int)),
        decreases len - i,
    {
        let b = *slice_index_get(a, i);
        if b >= ('A' as u8) && b <= ('Z' as u8) {
            r.push(b + 32);
        } else {
            r.push(b);
        }
        proof {
            assert(lower_bytes(a@.take(i + 1)) =~= lower_bytes(a@.take(i as int)).push(
                byte_lower(a@[i as int]),
            ));
        }
        i = i + 1;
    }
    proof {
        assert(a@.take(len as int) =~= a@);
    }
    r
}

/// Whether `a` and `b` hold the same bytes.
pub fn bytes_eq(a: &[u8], b: &[u8]) -> (r: bool)
    ensures
        r == (a@ == b@),
{
    if a.len() != b.len() {
        return false;
    }
    let len = a.len();
    let mut i: usize = 0;
    while i < len
        invariant
            i <= len,
            len == a@.len() == b@.len(),
            forall|j: int| 0 <= j < i ==> a@[j] == b@[j],
        decreases len - i,
    {
        if *slice_index_get(a, i) != *slice_index_get(b, i) {
            return false;
        }
        i = i + 1;
    }
    proof {
        assert(a@ =~= b@);
    }
    true
}

/// Whether `p` is a prefix of `s`.
pub open spec fn has_prefix(s: Seq<u8>, p: Seq<u8>) -> bool {
    p.len() <= s.len() && s.subrange(0, p.len() as int) == p
}

/// Whether `a` begins with the bytes of `p`.
pub fn starts_with(a: &[u8], p: &[u8]) -> (r: bool)
    ensures
        r == has_prefix(a@, p@),
{
    if p.len() > a.len() {
        proof {
            assert(!has_prefix(a@, p@));
        }
        return false;
    }
    let plen = p.len();
    let mut i: usize = 0;
    while i < plen
        invariant
            i <= plen,
            plen == p@.len(),
            plen <= a@.len(),
            forall|j: int| 0 <= j < i ==> a@[j] == p@[j],
        decreases plen - i,
    {
        if *slice_index_get(a, i) != *slice_index_get(p, i) {
            proof {
                assert(a@.subrange(0, plen as int)[i as int] != p@[i as int]);
            }
            return false;
        }
        i = i + 1;
    }
    proof {
        assert(a@.subrange(0, plen as int) =~= p@);
    }
    true
}

/// Index of the first occurrence of `b` in `s`, if any.
pub open spec fn find_byte_spec(s: Seq<u8>, b: u8) -> Option<nat>
    decreases s.len(),
{
    if s.len() == 0 {
        None
    } else if s[0] == b {
        Some(0)
    } else {
        match find_byte_spec(s.skip(1), b) {
            None => None,
            Some(i) => Some((i + 1) as nat),
        }
    }
}

/// What `find_byte_spec` returns: the least position of `b`, or `None` when
/// `b` does not occur.
pub proof fn lemma_find_byte_props(s: Seq<u8>, b: u8)
    ensures
        match find_byte_spec(s, b) {
            Some(i) => i < s.len() && s[i as int] == b && (forall|j: int|
                0 <= j < i ==> s[j] != b),
            None => forall|j: int| 0 <= j < s.len() ==> s[j] != b,
        },
    decreases s.len(),
{
    if s.len() > 0 && s[0] != b {
        lemma_find_byte_props(s.skip(1), b);
        let t = s.skip(1);
        assert(forall|j: int| 0 <= j < t.len() ==> t[j] == s[j + 1]);
        match find_byte_spec(t, b) {
            Some(i) => {
                assert(s[i as int + 1] == t[i as int]);
                assert forall|j: int| 0 <= j < i + 1 implies s[j] != b by {
                    if 1 <= j {
                        assert(t[j - 1] != b);
                    }
                }
            },
            None => {
                assert forall|j: int| 0 <= j < s.len() implies s[j] != b by {
                    if 1 <= j {
                        assert(t[j - 1] != b);
                    }
                }
            },
        }
    }
}

/// Scans `a` for the first occurrence of `b`.
pub fn find_byte(a: &[u8], b: u8) -> (r: Option<usize>)
    ensures
        match r {
            Some(i) => i < a@.len() && find_byte_spec(a@, b) == Some(i as nat),
            None => find_byte_spec(a@, b) == None::<nat>,
        },
{
    let len = a.len();
    let mut i: usize = 0;
    while i < len
        invariant
            i <= len,
            len == a@.len(),
            forall|j: int| 0 <= j < i ==> a@[j] != b,
        decreases len - i,
    {
        if *slice_index_get(a, i) == b {
            proof {
                lemma_find_byte_props(a@, b);
                match find_byte_spec(a@, b) {
                    Some(k) => {
                        if k < i {
                            assert(a@[k as int] != b);
                        }
                    },
                    None => {
                        assert(a@[i as int] != b);
                    },
                }
            }
            return Some(i);
        }
        i = i + 1;
    }
    proof {
        lemma_find_byte_props(a@, b);
        if find_byte_spec(a@, b) is Some {
            let k = find_byte_spec(a@, b)->Some_0;
            assert(a@[k as int] == b);
        }
    }
    None
}

/// `s` without its leading ASCII whitespace.
pub open spec fn trim_start_spec(s: Seq<u8>) -> Seq<u8>
    decreases s.len(),
{
    if s.len() > 0 && is_ws_byte(s[0]) {
        trim_start_spec(s.skip(1))
    } else {
        s
    }
}

/// `s` without its trailing ASCII whitespace.
pub open spec fn trim_end_spec(s: Seq<u8>) -> Seq<u8>
    decreases s.len(),
{
    if s.len() > 0 && is_ws_byte(s[s.len() - 1]) {
        trim_end_spec(s.take(s.len() - 1))
    } else {
        s
    }
}

/// `s` without leading and trailing ASCII whitespace.
pub open spec fn trim_spec(s: Seq<u8>) -> Seq<u8> {
    trim_end_spec(trim_start_spec(s))
}

/// A position whose prefix is all whitespace locates `trim_start_spec`.
proof fn lemma_trim_start_at(s: Seq<u8>, i: int)
    requires
        0 <= i <= s.len(),
        forall|j: int| 0 <= j < i ==> is_ws_byte(s[j]),
        i < s.len() ==> !is_ws_byte(s[i]),
    ensures
        trim_start_spec(s) == s.skip(i),
    decreases s.len(),
{
    if s.len() > 0 && is_ws_byte(s[0]) {
        let t = s.skip(1);
        assert(forall|j: int| 0 <= j < t.len() ==> t[j] == s[j + 1]);
        assert(i >= 1);
        lemma_trim_start_at(t, i - 1);
        assert(t.skip(i - 1) =~= s.skip(i));
    } else {
        assert(i == 0);
        assert(s.skip(0) =~= s);
    }
}

/// A position whose suffix is all whitespace locates `trim_end_spec`.
proof fn lemma_trim_end_at(s: Seq<u8>, i: int)
    requires
        0 <= i <= s.len(),
        forall|j: int| i <= j < s.len() ==> is_ws_byte(s[j]),
        i > 0 ==> !is_ws_byte(s[i - 1]),
    ensures
        trim_end_spec(s) == s.take(i),
    decreases s.len(),
{
    if s.len() > 0 && is_ws_byte(s[s.len() - 1]) {
        let t = s.take(s.len() - 1);
        assert(forall|j: int| 0 <= j < t.len() ==> t[j] == s[j]);
        assert(i <= t.len());
        lemma_trim_end_at(t, i);
        assert(t.take(i) =~= s.take(i));
    } else {
        assert(i == s.len());
        assert(s.take(i) =~= s);
    }
}

/// Copies `a` with leading and trailing ASCII whitespace removed.
pub fn trim(a: &[u8]) -> (r: Vec<u8>)
    ensures
        r@ == trim_spec(a@),
{
    let len = a.len();
    let mut lo: usize = 0;
    while lo < len && is_ws_char(*slice_index_get(a, lo))
        invariant
            lo <= len,
            len == a@.len(),
            forall|j: int| 0 <= j < lo ==> is_ws_byte(a@[j]),
        decreases len - lo,
    {
        lo = lo + 1;
    }
    proof {
        lemma_trim_start_at(a@, lo as int);
    }
    let mut hi: usize = len;
    while hi > lo && is_ws_char(*slice_index_get(a, hi - 1))
        invariant
            lo <= hi <= len,
            len == a@.len(),
            forall|j: int| 0 <= j < lo ==> is_ws_byte(a@[j]),
            forall|j: int| hi <= j < len ==> is_ws_byte(a@[j]),
        decreases hi,
    {
        hi = hi - 1;
    }
    let ghost t = a@.skip(lo as int);
    proof {
        assert(forall|j: int| 0 <= j < t.len() ==> t[j] == a@[j + lo]);
        lemma_trim_end_at(t, hi - lo);
        assert(t.take(hi - lo) =~= a@.subrange(lo as int, hi as int));
    }
    let sub = vstd::slice::slice_subrange(a, lo, hi);
    vstd::slice::slice_to_vec(sub)
}

/// Copies `a` with trailing ASCII whitespace removed.
pub fn trim_end(a: &[u8]) -> (r: Vec<u8>)
    ensures
        r@ == trim_end_spec(a@),
{
    let len = a.len();
    let mut hi: usize = len;
    while hi > 0 && is_ws_char(*slice_index_get(a, hi - 1))
        invariant
            hi <= len,
            len == a@.len(),
            forall|j: int| hi <= j < len ==> is_ws_byte(a@[j]),
        decreases hi,
    {
        hi = hi - 1;
    }
    proof {
        lemma_trim_end_at(a@, hi as int);
    }
    copy_range(a, 0, hi)
}

/// Whether every byte of `s` is an ASCII decimal digit.
pub open spec fn all_digits(s: Seq<u8>) -> bool {
    forall|j: int| 0 <= j < s.len() ==> ('0' as u8) <= #[trigger] s[j] <= ('9' as u8)
}

/// The value of a sequence of ASCII decimal digits.
pub open spec fn dec_value(s: Seq<u8>) -> nat
    decreases s.len(),
{
    if s.len() == 0 {
        0
    } else {
        dec_value(s.take(s.len() - 1)) * 10 + ((s[s.len() - 1] - ('0' as u8)) as nat)
    }
}

/// The ASCII decimal digits of `n`, most significant first, no leading zeros.
pub open spec fn dec_digits(n: nat) -> Seq<u8>
    decreases n,
{
    if n < 10 {
        seq![(('0' as u8) + n) as u8]
    } else {
        dec_digits(n / 10).push((('0' as u8) + n % 10) as u8)
    }
}

/// Appending digits never decreases the value.
proof fn lemma_dec_value_take_le(s: Seq<u8>, i: int)
    requires
        0 <= i <= s.len(),
    ensures
        dec_value(s.take(i)) <= dec_value(s),
    decreases s.len() - i,
{
    if i < s.len() {
        lemma_dec_value_take_le(s, i + 1);
        let t = s.take(i + 1);
        assert(t.take(i) =~= s.take(i));
        assert(dec_value(t) == dec_value(s.take(i)) * 10 + ((t[i] - ('0' as u8)) as nat));
        assert(dec_value(s.take(i)) <= dec_value(s.take(i)) * 10);
    } else {
        assert(s.take(i) =~= s);
    }
}

/// Parses `a` as a non-negative base-10 integer. Returns `None` unless `a`
/// is one or more decimal digits whose value fits in `usize`.
pub fn parse_dec(a: &[u8]) -> (r: Option<usize>)
    ensures
        r is Some <==> (a@.len() >= 1 && all_digits(a@) && dec_value(a@) <= usize::MAX),
        r matches Some(n) ==> n == dec_value(a@),
{
    let len = a.len();
    if len == 0 {
        return None;
    }
    let mut n: usize = 0;
    let mut i: usize = 0;
    while i < len
        invariant
            i <= len,
            len == a@.len() >= 1,
            all_digits(a@.take(i as int)),
            n == dec_value(a@.take(i as int)),
        decreases len - i,
    {
        let b = *slice_index_get(a, i);
        if b < ('0' as u8) || b > ('9' as u8) {
            return None;
        }
        let d = (b - ('0' as u8)) as usize;
        proof {
            assert(a@.take(i + 1).take(i as int) =~= a@.take(i as int));
            assert(dec_value(a@.take(i + 1)) == n * 10 + d);
        }
        if n > (usize::MAX - d) / 10 {
            proof {
                assert(n >= (usize::MAX - d) / 10 + 1);
                assert((usize::MAX - d) / 10 * 10 + 9 >= usize::MAX - d) by (nonlinear_arith);
                assert(n * 10 >= ((usize::MAX - d) / 10 + 1) * 10) by (nonlinear_arith)
                    requires
                        n >= (usize::MAX - d) / 10 + 1,
                ;
                assert(n * 10 + d > usize::MAX);
                lemma_dec_value_take_le(a@, i + 1);
                assert(a@.take(len as int) =~= a@);
            }
            return None;
        }
        proof {
            assert(n <= (usize::MAX - d) / 10);
            assert(n * 10 <= (usize::MAX - d) / 10 * 10) by (nonlinear_arith)
                requires
                    n <= (usize::MAX - d) / 10,
            ;
            assert((usize::MAX - d) / 10 * 10 <= usize::MAX - d) by (nonlinear_arith);
        }
        n = n * 10 + d;
        i = i + 1;
    }
    proof {
        assert(a@.take(len as int) =~= a@);
    }
    Some(n)
}

/// Whether `b` is an ASCII hexadecimal digit, either case.
pub open spec fn is_hex_digit_byte(b: u8) -> bool {
    ('0' as u8) <= b <= ('9' as u8) || ('a' as u8) <= b <= ('f' as u8) || ('A' as u8) <= b <= ('F'
        as u8)
}

/// The value of one ASCII hexadecimal digit.
pub open spec fn hex_digit_val(b: u8) -> nat {
    if ('0' as u8) <= b <= ('9' as u8) {
        (b - ('0' as u8)) as nat
    } else if ('a' as u8) <= b <= ('f' as u8) {
        (b - ('a' as u8) + 10) as nat
    } else {
        (b - ('A' as u8) + 10) as nat
    }
}

/// Whether every byte of `s` is an ASCII hexadecimal digit.
pub open spec fn all_hex_digits(s: Seq<u8>) -> bool {
    forall|j: int| 0 <= j < s.len() ==> is_hex_digit_byte(#[trigger] s[j])
}

/// The value of a sequence of ASCII hexadecimal digits.
pub open spec fn hex_value(s: Seq<u8>) -> nat
    decreases s.len(),
{
    if s.len() == 0 {
        0
    } else {
        hex_value(s.take(s.len() - 1)) * 16 + hex_digit_val(s[s.len() - 1])
    }
}

/// Appending hexadecimal digits never decreases the value.
proof fn lemma_hex_value_take_le(s: Seq<u8>, i: int)
    requires
        0 <= i <= s.len(),
    ensures
        hex_value(s.take(i)) <= hex_value(s),
    decreases s.len() - i,
{
    if i < s.len() {
        lemma_hex_value_take_le(s, i + 1);
        let t = s.take(i + 1);
        assert(t.take(i) =~= s.take(i));
        assert(hex_value(t) == hex_value(s.take(i)) * 16 + hex_digit_val(t[i]));
        assert(hex_value(s.take(i)) <= hex_value(s.take(i)) * 16);
    } else {
        assert(s.take(i) =~= s);
    }
}

/// Parses `a` as a base-16 integer. Returns `None` unless `a` is one or
/// more hexadecimal digits whose value fits in `usize`.
pub fn parse_hex(a: &[u8]) -> (r: Option<usize>)
    ensures
        r is Some <==> (a@.len() >= 1 && all_hex_digits(a@) && hex_value(a@) <= usize::MAX),
        r matches Some(n) ==> n == hex_value(a@),
{
    let len = a.len();
    if len == 0 {
        return None;
    }
    let mut n: usize = 0;
    let mut i: usize = 0;
    while i < len
        invariant
            i <= len,
            len == a@.len() >= 1,
            all_hex_digits(a@.take(i as int)),
            n == hex_value(a@.take(i as int)),
        decreases len - i,
    {
        let b = *slice_index_get(a, i);
        let d: usize;
        if b >= ('0' as u8) && b <= ('9' as u8) {
            d = (b - ('0' as u8)) as usize;
        } else if b >= ('a' as u8) && b <= ('f' as u8) {
            d = (b - ('a' as u8)) as usize + 10;
        } else if b >= ('A' as u8) && b <= ('F' as u8) {
            d = (b - ('A' as u8)) as usize + 10;
        } else {
            return None;
        }
        proof {
            assert(d == hex_digit_val(a@[i as int]));
            assert(a@.take(i + 1).take(i as int) =~= a@.take(i as int));
            assert(hex_value(a@.take(i + 1)) == n * 16 + d);
        }
        if n > (usize::MAX - d) / 16 {
            proof {
                assert((usize::MAX - d) / 16 * 16 + 15 >= usize::MAX - d) by (nonlinear_arith);
                assert(n * 16 >= ((usize::MAX - d) / 16 + 1) * 16) by (nonlinear_arith)
                    requires
                        n >= (usize::MAX - d) / 16 + 1,
                ;
                assert(n * 16 + d > usize::MAX);
                lemma_hex_value_take_le(a@, i + 1);
                assert(a@.take(len as int) =~= a@);
            }
            return None;
        }
        proof {
            assert(n * 16 <= (usize::MAX - d) / 16 * 16) by (nonlinear_arith)
                requires
                    n <= (usize::MAX - d) / 16,
            ;
            assert((usize::MAX - d) / 16 * 16 <= usize::MAX - d) by (nonlinear_arith);
        }
        n = n * 16 + d;
        i = i + 1;
    }
    proof {
        assert(a@.take(len as int) =~= a@);
    }
    Some(n)
}

/// The decimal digits of `n`, as bytes.
pub fn to_dec(n: usize) -> (r: Vec<u8>)
    ensures
        r@ == dec_digits(n as nat),
    decreases n,
{
    if n < 10 {
        let mut r: Vec<u8> = Vec::new();
        r.push(('0' as u8) + n as u8);
        proof {
            assert(r@ =~= dec_digits(n as nat));
        }
        r
    } else {
        let mut r = to_dec(n / 10);
        r.push(('0' as u8) + (n % 10) as u8);
        r
    }
}

/// Appends all of `a` to `out`.
pub fn push_all(out: &mut Vec<u8>, a: &[u8])
    ensures
        final(out)@ == old(out)@ + a@,
{
    let len = a.len();
    let mut i: usize = 0;
    while i < len
        invariant
            i <= len,
            len == a@.len(),
            out@ =~= old(out)@ + a@.take(i as int),
        decreases len - i,
    {
        out.push(*slice_index_get(a, i));
        i = i + 1;
    }
    proof {
        assert(old(out)@ + a@.take(len as int) =~= old(out)@ + a@);
    }
}

/// Appends the bytes of an ASCII string literal to `out`.
pub fn push_lit(out: &mut Vec<u8>, s: &str)
    requires
        s.is_ascii(),
    ensures
        final(out)@ == old(out)@ + ascii_bytes(s@),
{
    let b = lit_bytes(s);
    push_all(out, b);
}

/// Copies the byte range `[lo, hi)` of `a`.
pub fn copy_range(a: &[u8], lo: usize, hi: usize) -> (r: Vec<u8>)
    requires
        lo <= hi <= a@.len(),
    ensures
        r@ == a@.subrange(lo as int, hi as int),
{
    let sub = vstd::slice::slice_subrange(a, lo, hi);
    vstd::slice::slice_to_vec(sub)
}

} // verus!
