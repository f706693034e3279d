//! The header block: CRLF-terminated `name: value` lines ending at a bare
//! empty line. Names are validated against the token characters and stored
//! lowercased beside their original spelling; repeated names merge their
//! values with `", "`, except for singleton headers, which may occur at most
//! once.
use vstd::prelude::*;

use crate::bytes::{
    ascii_bytes, bytes_eq, copy_range, find_byte, find_byte_spec, find_crlf, find_crlf_spec,
    is_token_byte, is_token_char, lemma_find_crlf_props, lit_bytes,
    lower_bytes, push_all, push_lit, to_lower, trim, trim_spec,
};
use crate::errors::ParseError;
use vstd::slice::{slice_index_get, slice_subrange};

verus! {

/// Whether `n` (a lowercased field name) is a singleton header: one that may
/// occur at most once per message.
pub open spec fn is_singleton_name(n: Seq<u8>) -> bool {
    ||| n == ascii_bytes("content-length"@)
    ||| n == ascii_bytes("host"@)
    ||| n == ascii_bytes("authorization"@)
    ||| n == ascii_bytes("content-type"@)
    ||| n == ascii_bytes("content-encoding"@)
    ||| n == ascii_bytes("content-range"@)
    ||| n == ascii_bytes("date"@)
}

/// Exec mirror of `is_singleton_name`.
pub fn is_singleton(name: &[u8]) -> (r: bool)
    ensures
        r == is_singleton_name(name@),
{
    proof {
        reveal_strlit("content-length");
        reveal_strlit("host");
        reveal_strlit("authorization");
        reveal_strlit("content-type");
        reveal_strlit("content-encoding");
        reveal_strlit("content-range");
        reveal_strlit("date");
    }
    bytes_eq(name, lit_bytes("content-length")) || bytes_eq(name, lit_bytes("host")) || bytes_eq(
        name,
        lit_bytes("authorization"),
    ) || bytes_eq(name, lit_bytes("content-type")) || bytes_eq(name, lit_bytes("content-encoding"))
        || bytes_eq(name, lit_bytes("content-range")) || bytes_eq(name, lit_bytes("date"))
}

/// The mathematical content of one stored header field.
pub struct HeaderFieldView {
    /// Lowercased field name, the lookup key.
    pub name: Seq<u8>,
    /// The field name as it appeared on the wire.
    pub original: Seq<u8>,
    /// The field value, trimmed; merged values are joined with `", "`.
    pub value: Seq<u8>,
}

/// One stored header field.
#[derive(Debug)]
pub struct HeaderEntry {
    /// Lowercased field name, the lookup key.
    pub name: Vec<u8>,
    /// The field name as it appeared on the wire.
    pub original: Vec<u8>,
    /// The field value, trimmed; merged values are joined with `", "`.
    pub value: Vec<u8>,
}

impl View for HeaderEntry {
    type V = HeaderFieldView;

    open spec fn view(&self) -> HeaderFieldView {
        HeaderFieldView { name: self.name@, original: self.original@, value: self.value@ }
    }
}

/// The parsed header block: a mapping from lowercase field name to original
/// spelling and value, in order of first appearance.
#[derive(Debug)]
pub struct Headers {
    /// The stored fields, one per distinct name, in order of first
    /// appearance.
    pub entries: Vec<HeaderEntry>,
}

/// The mathematical content of a sequence of stored fields.
pub open spec fn fields_of(entries: Seq<HeaderEntry>) -> Seq<HeaderFieldView> {
    Seq::new(entries.len(), |i: int| entries[i]@)
}

impl View for Headers {
    type V = Seq<HeaderFieldView>;

    open spec fn view(&self) -> Seq<HeaderFieldView> {
        fields_of(self.entries@)
    }
}

/// Index of the first field named `name`, if any.
pub open spec fn index_of_name(hs: Seq<HeaderFieldView>, name: Seq<u8>) -> Option<nat>
    decreases hs.len(),
{
    if hs.len() == 0 {
        None
    } else if hs[0].name == name {
        Some(0)
    } else {
        match index_of_name(hs.skip(1), name) {
            None => None,
            Some(i) => Some((i + 1) as nat),
        }
    }
}

/// Whether some field is named `name`.
pub open spec fn has_name(hs: Seq<HeaderFieldView>, name: Seq<u8>) -> bool {
    index_of_name(hs, name) is Some
}

/// The value stored under `name`, or empty when absent.
pub open spec fn value_of(hs: Seq<HeaderFieldView>, name: Seq<u8>) -> Seq<u8> {
    match index_of_name(hs, name) {
        Some(i) => hs[i as int].value,
        None => Seq::empty(),
    }
}

/// The original spelling stored under `name`, or empty when absent.
pub open spec fn original_of(hs: Seq<HeaderFieldView>, name: Seq<u8>) -> Seq<u8> {
    match index_of_name(hs, name) {
        Some(i) => hs[i as int].original,
        None => Seq::empty(),
    }
}

/// What `index_of_name` returns: the least index named `name`, or `None`
/// when no field is.
pub proof fn lemma_index_of_name_props(hs: Seq<HeaderFieldView>, name: Seq<u8>)
    ensures
        match index_of_name(hs, name) {
            Some(i) => i < hs.len() && hs[i as int].name == name && (forall|j: int|
                0 <= j < i ==> hs[j].name != name),
            None => forall|j: int| 0 <= j < hs.len() ==> hs[j].name != name,
        },
    decreases hs.len(),
{
    if hs.len() > 0 && hs[0].name != name {
        lemma_index_of_name_props(hs.skip(1), name);
        let t = hs.skip(1);
        assert(forall|j: int| 0 <= j < t.len() ==> t[j] == hs[j + 1]);
        match index_of_name(t, name) {
            Some(i) => {
                assert(hs[i as int + 1] == t[i as int]);
                assert forall|j: int| 0 <= j < i + 1 implies hs[j].name != name by {
                    if 1 <= j {
                        assert(t[j - 1].name != name);
                    }
                }
            },
            None => {
                assert forall|j: int| 0 <= j < hs.len() implies hs[j].name != name by {
                    if 1 <= j {
                        assert(t[j - 1].name != name);
                    }
                }
            },
        }
    }
}

/// Whether every byte of `s` is a token character.
pub open spec fn all_token_bytes(s: Seq<u8>) -> bool {
    forall|j: int| 0 <= j < s.len() ==> is_token_byte(#[trigger] s[j])
}

/// Parses one header line (without its CRLF): the bytes before the first
/// colon are the name, which must be all token characters; the bytes after
/// it, trimmed, are the value.
pub open spec fn parse_field_spec(line: Seq<u8>) -> Result<HeaderFieldView, ParseError> {
    match find_byte_spec(line, ':' as u8) {
        None => Err(ParseError::MalformedHeaderLine),
        Some(c) => {
            let name = line.take(c as int);
            if !all_token_bytes(name) {
                Err(ParseError::InvalidFieldName)
            } else {
                Ok(
                    HeaderFieldView {
                        name: lower_bytes(name),
                        original: name,
                        value: trim_spec(line.skip(c as int + 1)),
                    },
                )
            }
        },
    }
}

/// The merge of a repeated non-singleton header value onto the stored one.
pub open spec fn merged_value(stored: Seq<u8>, incoming: Seq<u8>) -> Seq<u8> {
    stored + ascii_bytes(", "@) + incoming
}

/// Adds one parsed field to the accumulated block: new names are appended; a
/// repeated singleton name is an error; a repeated other name merges values.
pub open spec fn add_field(hs: Seq<HeaderFieldView>, f: HeaderFieldView) -> Result<
    Seq<HeaderFieldView>,
    ParseError,
> {
    match index_of_name(hs, f.name) {
        None => Ok(hs.push(f)),
        Some(i) => {
            if is_singleton_name(f.name) {
                Err(ParseError::DuplicateSingletonHeader)
            } else {
                Ok(
                    hs.update(
                        i as int,
                        HeaderFieldView {
                            name: hs[i as int].name,
                            original: hs[i as int].original,
                            value: merged_value(hs[i as int].value, f.value),
                        },
                    ),
                )
            }
        },
    }
}

/// Parses successive header lines of `s` into `acc` until a bare empty line;
/// returns the fields and the number of bytes consumed, terminator included.
pub open spec fn parse_fields_rec(s: Seq<u8>, acc: Seq<HeaderFieldView>) -> Result<
    (Seq<HeaderFieldView>, nat),
    ParseError,
>
    decreases s.len(),
{
    match find_crlf_spec(s) {
        None => Err(ParseError::UnexpectedEof),
        Some(k) => {
            if k == 0 {
                Ok((acc, 2))
            } else {
                match parse_field_spec(s.take(k as int)) {
                    Err(e) => Err(e),
                    Ok(f) => match add_field(acc, f) {
                        Err(e) => Err(e),
                        Ok(acc2) => {
                            proof {
                                lemma_find_crlf_props(s);
                            }
                            match parse_fields_rec(s.skip(k + 2 as int), acc2) {
                                Err(e) => Err(e),
                                Ok((hs, n)) => Ok((hs, (k + 2 + n) as nat)),
                            }
                        },
                    },
                }
            }
        },
    }
}

/// Parses the header block at the start of `s`: at least one header line,
/// then a bare empty line. Returns the fields and the bytes consumed.
pub open spec fn parse_header_block_spec(s: Seq<u8>) -> Result<
    (Seq<HeaderFieldView>, nat),
    ParseError,
> {
    match find_crlf_spec(s) {
        None => Err(ParseError::UnexpectedEof),
        Some(k) => {
            if k == 0 {
                Err(ParseError::ProtocolViolation)
            } else {
                parse_fields_rec(s, Seq::empty())
            }
        },
    }
}

/// Distinct stored fields have distinct names.
pub open spec fn wf_fields(hs: Seq<HeaderFieldView>) -> bool {
    forall|i: int, j: int| 0 <= i < j < hs.len() ==> hs[i].name != hs[j].name
}

/// A field is named `name` exactly when some index holds that name.
pub proof fn lemma_has_name_iff(hs: Seq<HeaderFieldView>, name: Seq<u8>)
    ensures
        has_name(hs, name) <==> exists|j: int| 0 <= j < hs.len() && (#[trigger] hs[j]).name == name,
{
    lemma_index_of_name_props(hs, name);
    match index_of_name(hs, name) {
        Some(i) => {
            assert(hs[i as int].name == name);
        },
        None => {
        },
    }
}

/// The contents of the successive header lines of `s`, up to the bare empty
/// line, when the block is complete; `None` when the terminator is missing.
pub open spec fn block_lines(s: Seq<u8>) -> Option<Seq<Seq<u8>>>
    decreases s.len(),
{
    match find_crlf_spec(s) {
        None => None,
        Some(k) => {
            if k == 0 {
                Some(Seq::empty())
            } else {
                proof {
                    lemma_find_crlf_props(s);
                }
                match block_lines(s.skip(k + 2 as int)) {
                    None => None,
                    Some(ls) => Some(seq![s.take(k as int)] + ls),
                }
            }
        },
    }
}

/// How many of the lines parse to fields named `name`.
pub open spec fn count_named(ls: Seq<Seq<u8>>, name: Seq<u8>) -> nat
    decreases ls.len(),
{
    if ls.len() == 0 {
        0
    } else {
        (match parse_field_spec(ls[0]) {
            Ok(f) => if f.name == name {
                1nat
            } else {
                0nat
            },
            Err(_) => 0nat,
        }) + count_named(ls.skip(1), name)
    }
}

/// Whether every line parses as a header field.
pub open spec fn all_lines_ok(ls: Seq<Seq<u8>>) -> bool {
    forall|j: int| 0 <= j < ls.len() ==> parse_field_spec(#[trigger] ls[j]) is Ok
}

/// Over a complete block whose lines all parse, the only possible parse
/// failure is a duplicated singleton, and a successful parse admits at most
/// one line carrying a given singleton name (counting one already in `acc`).
proof fn lemma_fields_rec_singleton(
    s: Seq<u8>,
    acc: Seq<HeaderFieldView>,
    ls: Seq<Seq<u8>>,
    name: Seq<u8>,
)
    requires
        block_lines(s) == Some(ls),
        all_lines_ok(ls),
        is_singleton_name(name),
    ensures
        parse_fields_rec(s, acc) is Err ==> parse_fields_rec(s, acc) == Err::<
            (Seq<HeaderFieldView>, nat),
            ParseError,
        >(ParseError::DuplicateSingletonHeader),
        parse_fields_rec(s, acc) is Ok ==> count_named(ls, name) + (if has_name(acc, name) {
            1nat
        } else {
            0nat
        }) <= 1,
    decreases s.len(),
{
    lemma_find_crlf_props(s);
    match find_crlf_spec(s) {
        None => {
            assert(block_lines(s) is None);
        },
        Some(k) => {
            if k == 0 {
                assert(ls =~= Seq::<Seq<u8>>::empty());
            } else {
                let line = s.take(k as int);
                let rest = s.skip(k + 2 as int);
                let tail = block_lines(rest)->Some_0;
                assert(ls == seq![line] + tail);
                assert(ls[0] == line);
                assert(ls.skip(1) =~= tail);
                assert(parse_field_spec(ls[0]) is Ok);
                let f = parse_field_spec(line)->Ok_0;
                assert(forall|j: int| 0 <= j < tail.len() ==> tail[j] == ls[j + 1]);
                match add_field(acc, f) {
                    Err(e) => {
                        lemma_index_of_name_props(acc, f.name);
                    },
                    Ok(acc2) => {
                        lemma_fields_rec_singleton(rest, acc2, tail, name);
                        if parse_fields_rec(s, acc) is Ok {
                            lemma_has_name_iff(acc, name);
                            lemma_has_name_iff(acc2, name);
                            lemma_index_of_name_props(acc, f.name);
                            match index_of_name(acc, f.name) {
                                None => {
                                    assert(acc2 == acc.push(f));
                                    if f.name == name {
                                        assert(acc2[acc.len() as int].name == name);
                                        assert(has_name(acc2, name));
                                        assert(!has_name(acc, name));
                                    } else {
                                        if has_name(acc, name) {
                                            let j = choose|j: int|
                                                0 <= j < acc.len() && (#[trigger] acc[j]).name
                                                    == name;
                                            assert(acc2[j].name == name);
                                        }
                                        if has_name(acc2, name) {
                                            let j = choose|j: int|
                                                0 <= j < acc2.len() && (#[trigger] acc2[j]).name
                                                    == name;
                                            assert(j < acc.len() && acc[j].name == name);
                                        }
                                    }
                                },
                                Some(i) => {
                                    assert(!is_singleton_name(f.name));
                                    assert(f.name != name);
                                    assert(forall|j: int|
                                        0 <= j < acc2.len() ==> (#[trigger] acc2[j]).name
                                            == acc[j].name);
                                    if has_name(acc, name) {
                                        let j = choose|j: int|
                                            0 <= j < acc.len() && (#[trigger] acc[j]).name == name;
                                        assert(acc2[j].name == name);
                                    }
                                    if has_name(acc2, name) {
                                        let j = choose|j: int|
                                            0 <= j < acc2.len() && (#[trigger] acc2[j]).name
                                                == name;
                                        assert(acc[j].name == name);
                                    }
                                },
                            }
                        }
                    },
                }
            }
        },
    }
}

/// Two `host` header lines in one complete, otherwise well-formed header
/// block always fail with `DuplicateSingletonHeader`, whatever the other
/// lines hold.
pub proof fn lemma_duplicate_host_rejected(s: Seq<u8>, ls: Seq<Seq<u8>>)
    requires
        block_lines(s) == Some(ls),
        all_lines_ok(ls),
        count_named(ls, ascii_bytes("host"@)) >= 2,
    ensures
        parse_header_block_spec(s) == Err::<(Seq<HeaderFieldView>, nat), ParseError>(
            ParseError::DuplicateSingletonHeader,
        ),
{
    let name = ascii_bytes("host"@);
    lemma_fields_rec_singleton(s, Seq::empty(), ls, name);
    lemma_index_of_name_props(Seq::empty(), name);
    match find_crlf_spec(s) {
        None => {
            assert(block_lines(s) is None);
        },
        Some(k) => {
            if k == 0 {
                assert(ls =~= Seq::<Seq<u8>>::empty());
            } else {
                if parse_fields_rec(s, Seq::empty()) is Ok {
                    assert(count_named(ls, name) <= 1);
                }
            }
        },
    }
}

/// Scans `entries` for the first field named `name`.
fn find_entry(entries: &Vec<HeaderEntry>, name: &[u8]) -> (r: Option<usize>)
    ensures
        match r {
            Some(i) => i < entries@.len() && index_of_name(fields_of(entries@), name@) == Some(
                i as nat,
            ),
            None => index_of_name(fields_of(entries@), name@) == None::<nat>,
        },
{
    let ghost hs = fields_of(entries@);
    let len = entries.len();
    let mut i: usize = 0;
    while i < len
        invariant
            i <= len,
            len == entries@.len(),
            hs == fields_of(entries@),
            forall|j: int| 0 <= j < i ==> hs[j].name != name@,
        decreases len - i,
    {
        if bytes_eq(entries[i].name.as_slice(), name) {
            proof {
                lemma_index_of_name_props(hs, name@);
                match index_of_name(hs, name@) {
                    Some(k) => {
                        if k < i {
                            assert(hs[k as int].name != name@);
                        } else if i < k {
                            assert(hs[i as int].name != name@);
                        }
                    },
                    None => {
                        assert(hs[i as int].name != name@);
                    },
                }
            }
            return Some(i);
        }
        i = i + 1;
    }
    proof {
        lemma_index_of_name_props(hs, name@);
        if index_of_name(hs, name@) is Some {
            let k = index_of_name(hs, name@)->Some_0;
            assert(hs[k as int].name == name@);
        }
    }
    None
}

/// Parses one header line, without its CRLF terminator.
pub fn parse_field(line: &[u8]) -> (r: Result<HeaderEntry, ParseError>)
    ensures
        match r {
            Ok(f) => parse_field_spec(line@) == Ok::<HeaderFieldView, ParseError>(f@),
            Err(e) => parse_field_spec(line@) == Err::<HeaderFieldView, ParseError>(e),
        },
{
    let c = match find_byte(line, ':' as u8) {
        None => {
            return Err(ParseError::MalformedHeaderLine);
        },
        Some(c) => c,
    };
    let ghost namev = line@.take(c as int);
    let mut j: usize = 0;
    while j < c
        invariant
            j <= c,
            c < line@.len(),
            namev == line@.take(c as int),
            find_byte_spec(line@, ':' as u8) == Some(c as nat),
            forall|t: int| 0 <= t < j ==> is_token_byte(#[trigger] namev[t]),
        decreases c - j,
    {
        if !is_token_char(*slice_index_get(line, j)) {
            proof {
                assert(namev[j as int] == line@[j as int]);
                assert(!all_token_bytes(namev));
            }
            return Err(ParseError::InvalidFieldName);
        }
        proof {
            assert(namev[j as int] == line@[j as int]);
        }
        j = j + 1;
    }
    proof {
        assert(all_token_bytes(namev));
    }
    let name = copy_range(line, 0, c);
    let lowname = to_lower(name.as_slice());
    let llen = line.len();
    let rest = slice_subrange(line, c + 1, llen);
    let value = trim(rest);
    proof {
        assert(name@ =~= namev);
        assert(rest@ =~= line@.skip(c as int + 1));
    }
    Ok(HeaderEntry { name: lowname, original: name, value })
}

impl Headers {
    /// Parses the header block at the start of `input`: CRLF-terminated
    /// header lines up to a bare empty line, which is consumed. Returns the
    /// headers and the number of bytes consumed.
    pub fn parse_header_line(input: &[u8]) -> (r: Result<(Headers, usize), ParseError>)
        ensures
            match r {
                Ok(p) => parse_header_block_spec(input@) == Ok::<(Seq<HeaderFieldView>, nat),
                    ParseError,
                >((p.0@, p.1 as nat)) && wf_fields(p.0@) && p.1 <= input@.len(),
                Err(e) => parse_header_block_spec(input@) == Err::<(Seq<HeaderFieldView>, nat),
                    ParseError,
                >(e),
            },
    {
        let ilen = input.len();
        proof {
            assert(input@.skip(0) =~= input@);
        }
        match find_crlf(input, 0) {
            None => {
                return Err(ParseError::UnexpectedEof);
            },
            Some(k) => {
                if k == 0 {
                    return Err(ParseError::ProtocolViolation);
                }
            },
        }
        let mut entries: Vec<HeaderEntry> = Vec::new();
        let mut p: usize = 0;
        proof {
            assert(fields_of(entries@) =~= Seq::<HeaderFieldView>::empty());
        }
        loop
            invariant
                p <= ilen,
                ilen == input@.len(),
                wf_fields(fields_of(entries@)),
                (match parse_fields_rec(input@.skip(p as int), fields_of(entries@)) {
                    Ok(res) => parse_fields_rec(input@, Seq::empty()) == Ok::<
                        (Seq<HeaderFieldView>, nat),
                        ParseError,
                    >((res.0, (p + res.1) as nat)),
                    Err(e) => parse_fields_rec(input@, Seq::empty()) == Err::<
                        (Seq<HeaderFieldView>, nat),
                        ParseError,
                    >(e),
                }),
                parse_header_block_spec(input@) == parse_fields_rec(input@, Seq::empty()),
            decreases input@.len() - p,
        {
            let ghost s = input@.skip(p as int);
            let ghost accv = fields_of(entries@);
            match find_crlf(input, p) {
                None => {
                    proof {
                        assert(parse_fields_rec(s, accv) == Err::<
                            (Seq<HeaderFieldView>, nat),
                            ParseError,
                        >(ParseError::UnexpectedEof));
                    }
                    return Err(ParseError::UnexpectedEof);
                },
                Some(kabs) => {
                    let k = kabs - p;
                    if k == 0 {
                        let h = Headers { entries };
                        return Ok((h, p + 2));
                    }
                    let line = slice_subrange(input, p, kabs);
                    proof {
                        assert(line@ =~= s.take(k as int));
                    }
                    match parse_field(line) {
                        Err(e) => {
                            return Err(e);
                        },
                        Ok(f) => {
                            let ghost fv = f@;
                            match find_entry(&entries, f.name.as_slice()) {
                                Some(i) => {
                                    if is_singleton(f.name.as_slice()) {
                                        return Err(ParseError::DuplicateSingletonHeader);
                                    }
                                    let mut ent = entries.remove(i);
                                    proof {
                                        reveal_strlit(", ");
                                    }
                                    push_lit(&mut ent.value, ", ");
                                    push_all(&mut ent.value, f.value.as_slice());
                                    entries.insert(i, ent);
                                    proof {
                                        reveal_strlit(", ");
                                        let merged = HeaderFieldView {
                                            name: accv[i as int].name,
                                            original: accv[i as int].original,
                                            value: merged_value(accv[i as int].value, fv.value),
                                        };
                                        assert(fields_of(entries@)[i as int].value =~= merged_value(
                                            accv[i as int].value,
                                            fv.value,
                                        ));
                                        assert(fields_of(entries@) =~= accv.update(
                                            i as int,
                                            merged,
                                        ));
                                        assert(add_field(accv, fv) == Ok::<
                                            Seq<HeaderFieldView>,
                                            ParseError,
                                        >(fields_of(entries@)));
                                        lemma_index_of_name_props(accv, fv.name);
                                        assert forall|a: int, b: int|
                                            0 <= a < b < fields_of(entries@).len()
                                                implies fields_of(entries@)[a].name != fields_of(
                                            entries@,
                                        )[b].name by {
                                            assert(fields_of(entries@)[a].name == accv[a].name);
                                            assert(fields_of(entries@)[b].name == accv[b].name);
                                        }
                                    }
                                },
                                None => {
                                    proof {
                                        lemma_index_of_name_props(accv, fv.name);
                                    }
                                    entries.push(f);
                                    proof {
                                        assert(fields_of(entries@) =~= accv.push(fv));
                                        assert forall|a: int, b: int|
                                            0 <= a < b < fields_of(entries@).len()
                                                implies fields_of(entries@)[a].name != fields_of(
                                            entries@,
                                        )[b].name by {
                                            if b < accv.len() {
                                                assert(accv[a].name != accv[b].name);
                                            } else {
                                                assert(accv[a].name != fv.name);
                                            }
                                        }
                                    }
                                },
                            }
                            proof {
                                let acc2 = fields_of(entries@);
                                assert(add_field(accv, fv) == Ok::<Seq<HeaderFieldView>, ParseError>(
                                    acc2,
                                ));
                                assert(s.skip(k as int + 2) =~= input@.skip(kabs as int + 2));
                                let r2 = parse_fields_rec(input@.skip(kabs as int + 2), acc2);
                                if r2 is Ok {
                                    assert(parse_fields_rec(s, accv) == Ok::<
                                        (Seq<HeaderFieldView>, nat),
                                        ParseError,
                                    >((r2->Ok_0.0, (k + 2 + r2->Ok_0.1) as nat)));
                                } else {
                                    assert(parse_fields_rec(s, accv) == Err::<
                                        (Seq<HeaderFieldView>, nat),
                                        ParseError,
                                    >(r2->Err_0));
                                }
                            }
                            p = kabs + 2;
                        },
                    }
                },
            }
        }
    }

    /// Looks up the value stored under `key`, compared case-insensitively.
    pub fn get_value(&self, key: &[u8]) -> (r: Option<&Vec<u8>>)
        ensures
            match r {
                Some(v) => has_name(self@, lower_bytes(key@)) && v@ == value_of(
                    self@,
                    lower_bytes(key@),
                ),
                None => !has_name(self@, lower_bytes(key@)),
            },
    {
        let kl = to_lower(key);
        match find_entry(&self.entries, kl.as_slice()) {
            Some(i) => Some(&self.entries[i].value),
            None => None,
        }
    }

    /// Looks up the original spelling of the name stored under `key`,
    /// compared case-insensitively.
    pub fn original_name(&self, key: &[u8]) -> (r: Option<&Vec<u8>>)
        ensures
            match r {
                Some(v) => has_name(self@, lower_bytes(key@)) && v@ == original_of(
                    self@,
                    lower_bytes(key@),
                ),
                None => !has_name(self@, lower_bytes(key@)),
            },
    {
        let kl = to_lower(key);
        match find_entry(&self.entries, kl.as_slice()) {
            Some(i) => Some(&self.entries[i].original),
            None => None,
        }
    }
}

} // verus!
