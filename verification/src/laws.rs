//! General properties of the parser and serializer, proved once for all
//! inputs: round trips for the request line, the query string and the
//! header block, and the exact recognition of the header terminator.

use vstd::prelude::*;

use vstd::utf8::{
    char_is_scalar, char_u32_cast, decode_utf8, encode_scalar, encode_utf8,
    encode_utf8_decode_utf8, encode_utf8_valid_utf8, has_width_1_encoding, has_width_2_encoding,
    has_width_3_encoding, valid_utf8,
};

use crate::error::ErrorKind;
use crate::request::{
    line_content, line_ok, line_rest, lines_complete, method_token, spec_head_complete,
    spec_header_kv, spec_headers, spec_method, spec_parse, spec_query, spec_request_line,
    spec_target, spec_version, version_token, Method, Version,
};
use crate::scan::{find_first, lemma_find_first, lemma_find_first_is, lemma_find_first_none};
use crate::strmap::{
    entries_wf, lemma_assoc_map_absent, lemma_assoc_map_index, lemma_upsert_absent,
    lemma_upsert_assoc_map, lemma_upsert_wf, spec_assoc_map, spec_upsert, Entries,
};

verus! {

broadcast use vstd::string::group_string_axioms;

/// A method token is nonempty, holds no space, and parses back to its
/// method.
pub proof fn lemma_method_token(m: Method)
    ensures
        method_token(m).len() > 0,
        forall|j: int|
            0 <= j < method_token(m).len() ==> method_token(m)[j] != ' ' && method_token(m)[j]
                != '\n',
        spec_method(method_token(m)) == Some(m),
{
    reveal_strlit("GET");
    reveal_strlit("POST");
    reveal_strlit("PUT");
    reveal_strlit("PATCH");
    reveal_strlit("OPTIONS");
    reveal_strlit("DELETE");
    assert("GET"@.len() == 3);
    assert("POST"@.len() == 4);
    assert("PUT"@.len() == 3);
    assert("PATCH"@.len() == 5);
    assert("OPTIONS"@.len() == 7);
    assert("DELETE"@.len() == 6);
    assert("PUT"@[0] != "GET"@[0]);
}

/// A version token is nonempty, holds no space, and parses back to its
/// version.
pub proof fn lemma_version_token(v: Version)
    ensures
        version_token(v).len() > 0,
        forall|j: int|
            0 <= j < version_token(v).len() ==> version_token(v)[j] != ' ' && version_token(v)[j]
                != '\n',
        spec_version(version_token(v)) == Some(v),
{
    reveal_strlit("HTTP/1.1");
    reveal_strlit("HTTP/2");
    assert("HTTP/1.1"@.len() == 8);
    assert("HTTP/2"@.len() == 6);
}

/// Request-line round trip: a line assembled as `M SP T SP V` from an
/// accepted method, a space-free target whose query part is well formed,
/// and an accepted version, parses back to exactly that method and
/// version, the path portion of the target, and its query pairs.
pub proof fn lemma_request_line_round_trip(m: Method, target: Seq<char>, v: Version)
    requires
        forall|j: int| 0 <= j < target.len() ==> target[j] != ' ',
        spec_target(target) is Some,
    ensures
        ({
            let line = method_token(m) + seq![' '] + target + seq![' '] + version_token(v);
            &&& spec_request_line(line) matches Some(f)
            &&& spec_target(target) matches Some(pq) ==> spec_request_line(line) == Some(
                (m, pq.0, pq.1, v),
            )
        }),
{
    let mt = method_token(m);
    let vt = version_token(v);
    let line = mt + seq![' '] + target + seq![' '] + vt;
    lemma_method_token(m);
    lemma_version_token(v);

    assert(line[mt.len() as int] == ' ');
    lemma_find_first_is(line, ' ', mt.len() as int);
    assert(line.subrange(0, mt.len() as int) =~= mt);
    let r1 = line.subrange(mt.len() as int + 1, line.len() as int);
    assert(r1 =~= target + seq![' '] + vt);

    assert(r1[target.len() as int] == ' ');
    lemma_find_first_is(r1, ' ', target.len() as int);
    assert(r1.subrange(0, target.len() as int) =~= target);
    let r2 = r1.subrange(target.len() as int + 1, r1.len() as int);
    assert(r2 =~= vt);
    lemma_find_first_none(r2, ' ');
}

/// The wire form of a query: `key=value` pairs joined by `&`.
pub open spec fn join_pairs(pairs: Entries) -> Seq<char>
    decreases pairs.len(),
{
    if pairs.len() == 0 {
        Seq::empty()
    } else if pairs.len() == 1 {
        pairs[0].0 + seq!['='] + pairs[0].1
    } else {
        pairs[0].0 + seq!['='] + pairs[0].1 + seq!['&'] + join_pairs(pairs.drop_first())
    }
}

/// True when `s` is free of the query separators `&` and `=`.
pub open spec fn plain_text(s: Seq<char>) -> bool {
    forall|j: int| 0 <= j < s.len() ==> s[j] != '&' && s[j] != '='
}

/// Query round trip, generalized over the accumulator: parsing the joined
/// pairs appends exactly those pairs to entries whose keys they do not
/// touch.
pub proof fn lemma_query_join(pairs: Entries, acc: Entries)
    requires
        pairs.len() > 0,
        forall|i: int| 0 <= i < pairs.len() ==> plain_text(#[trigger] pairs[i].0) && plain_text(
            pairs[i].1,
        ),
        forall|i: int, j: int| 0 <= i < j < pairs.len() ==> pairs[i].0 != pairs[j].0,
        forall|i: int, j: int|
            0 <= i < acc.len() && 0 <= j < pairs.len() ==> acc[i].0 != pairs[j].0,
    ensures
        spec_query(join_pairs(pairs), acc) == Some(acc + pairs),
    decreases pairs.len(),
{
    let q = join_pairs(pairs);
    let k0 = pairs[0].0;
    let v0 = pairs[0].1;
    assert(plain_text(k0) && plain_text(v0));
    if pairs.len() == 1 {
        assert(q == k0 + seq!['='] + v0);
        assert forall|j: int| 0 <= j < q.len() implies q[j] != '&' by {
            if j < k0.len() {
                assert(q[j] == k0[j]);
            } else if j > k0.len() {
                assert(q[j] == v0[j - k0.len() - 1]);
            }
        }
        lemma_find_first_none(q, '&');
        assert forall|j: int| 0 <= j < k0.len() implies q[j] != '=' by {
            assert(q[j] == k0[j]);
        }
        lemma_find_first_is(q, '=', k0.len() as int);
        assert(q.subrange(0, k0.len() as int) =~= k0);
        let r = q.subrange(k0.len() as int + 1, q.len() as int);
        assert(r =~= v0);
        lemma_find_first_none(r, '=');
        lemma_upsert_absent(acc, k0, v0);
        assert(acc.push((k0, v0)) =~= acc + pairs);
    } else {
        let rest = join_pairs(pairs.drop_first());
        assert(q == k0 + seq!['='] + v0 + seq!['&'] + rest);
        let a = k0.len() + 1 + v0.len();
        assert(q[a as int] == '&');
        assert forall|j: int| 0 <= j < a implies q[j] != '&' by {
            if j < k0.len() {
                assert(q[j] == k0[j]);
            } else if j > k0.len() {
                assert(q[j] == v0[j - k0.len() - 1]);
            }
        }
        lemma_find_first_is(q, '&', a as int);
        let seg = q.subrange(0, a as int);
        assert(seg =~= k0 + seq!['='] + v0);
        assert forall|j: int| 0 <= j < k0.len() implies seg[j] != '=' by {
            assert(seg[j] == k0[j]);
        }
        assert(seg[k0.len() as int] == '=');
        lemma_find_first_is(seg, '=', k0.len() as int);
        assert(seg.subrange(0, k0.len() as int) =~= k0);
        let r = seg.subrange(k0.len() as int + 1, seg.len() as int);
        assert(r =~= v0);
        lemma_find_first_none(r, '=');
        lemma_upsert_absent(acc, k0, v0);
        let acc1 = spec_upsert(acc, k0, v0);
        assert(acc1 =~= acc.push((k0, v0)));
        let tail = pairs.drop_first();
        assert forall|i: int|
            0 <= i < tail.len() implies plain_text(#[trigger] tail[i].0) && plain_text(
            tail[i].1,
        ) by {
            assert(tail[i] == pairs[i + 1]);
        }
        assert forall|i: int, j: int| 0 <= i < j < tail.len() implies tail[i].0 != tail[j].0 by {
            assert(tail[i] == pairs[i + 1]);
            assert(tail[j] == pairs[j + 1]);
        }
        assert forall|i: int, j: int|
            0 <= i < acc1.len() && 0 <= j < tail.len() implies acc1[i].0 != tail[j].0 by {
            assert(tail[j] == pairs[j + 1]);
            if i < acc.len() {
                assert(acc1[i] == acc[i]);
            } else {
                assert(acc1[i] == (k0, v0));
            }
        }
        lemma_query_join(tail, acc1);
        assert(q.subrange(a as int + 1, q.len() as int) =~= rest);
        assert(acc1 + tail =~= acc + pairs);
    }
}

/// A target without `?` is all path and carries no query pairs.
pub proof fn lemma_target_no_query(path: Seq<char>)
    requires
        forall|j: int| 0 <= j < path.len() ==> path[j] != '?',
    ensures
        spec_target(path) == Some((path, Seq::<(Seq<char>, Seq<char>)>::empty())),
{
    lemma_find_first_none(path, '?');
}

/// Target round trip: everything after the first `?` lands in the query
/// pairs and the path excludes the query string entirely.
pub proof fn lemma_target_round_trip(path: Seq<char>, pairs: Entries)
    requires
        forall|j: int| 0 <= j < path.len() ==> path[j] != '?',
        pairs.len() > 0,
        forall|i: int| 0 <= i < pairs.len() ==> plain_text(#[trigger] pairs[i].0) && plain_text(
            pairs[i].1,
        ),
        forall|i: int, j: int| 0 <= i < j < pairs.len() ==> pairs[i].0 != pairs[j].0,
    ensures
        spec_target(path + seq!['?'] + join_pairs(pairs)) == Some((path, pairs)),
{
    let t = path + seq!['?'] + join_pairs(pairs);
    assert(t[path.len() as int] == '?');
    assert forall|j: int| 0 <= j < path.len() implies t[j] != '?' by {
        assert(t[j] == path[j]);
    }
    lemma_find_first_is(t, '?', path.len() as int);
    assert(t.subrange(0, path.len() as int) =~= path);
    assert(t.subrange(path.len() as int + 1, t.len() as int) =~= join_pairs(pairs));
    lemma_query_join(pairs, Seq::empty());
    assert(Seq::empty() + pairs =~= pairs);
}

/// The mapping a parsed query denotes contains exactly the joined keys,
/// each bound to its own value.
pub proof fn lemma_query_map(pairs: Entries)
    requires
        pairs.len() > 0,
        forall|i: int| 0 <= i < pairs.len() ==> plain_text(#[trigger] pairs[i].0) && plain_text(
            pairs[i].1,
        ),
        forall|i: int, j: int| 0 <= i < j < pairs.len() ==> pairs[i].0 != pairs[j].0,
    ensures
        spec_query(join_pairs(pairs), Seq::empty()) == Some(pairs),
        forall|i: int|
            0 <= i < pairs.len() ==> spec_assoc_map(pairs).contains_key(#[trigger] pairs[i].0)
                && spec_assoc_map(pairs)[pairs[i].0] == pairs[i].1,
        forall|k: Seq<char>|
            spec_assoc_map(pairs).contains_key(k) ==> exists|i: int|
                0 <= i < pairs.len() && pairs[i].0 == k,
{
    lemma_query_join(pairs, Seq::empty());
    assert(Seq::empty() + pairs =~= pairs);
    assert forall|i: int|
        0 <= i < pairs.len() implies spec_assoc_map(pairs).contains_key(#[trigger] pairs[i].0)
        && spec_assoc_map(pairs)[pairs[i].0] == pairs[i].1 by {
        lemma_assoc_map_index(pairs, i);
    }
    assert forall|k: Seq<char>| spec_assoc_map(pairs).contains_key(k) implies exists|i: int|
        0 <= i < pairs.len() && pairs[i].0 == k by {
        if !(exists|i: int| 0 <= i < pairs.len() && pairs[i].0 == k) {
            assert forall|j: int| 0 <= j < pairs.len() implies pairs[j].0 != k by {}
            lemma_assoc_map_absent(pairs, k);
        }
    }
}

/// The UTF-8 encoding of a character other than `\n` never contains the
/// byte 10: a one-byte encoding is the character's own ASCII value, and
/// every byte of a longer encoding has its high bit set.
proof fn lemma_scalar_no_lf(c: char)
    requires
        c != '\n',
    ensures
        forall|i: int|
            0 <= i < encode_scalar(c as u32).len() ==> #[trigger] encode_scalar(c as u32)[i]
                != 10u8,
{
    let u = c as u32;
    char_is_scalar(c);
    char_u32_cast(c, u);
    assert('\n' as u32 == 10);
    if u == 10 {
        char_u32_cast('\n', 10u32);
    }
    assert(u != 10);
    if has_width_1_encoding(u) {
        assert(((u & 0x7F) as u8) != 10u8) by (bit_vector)
            requires
                u != 10u32,
                u <= 0x7Fu32,
        ;
    } else if has_width_2_encoding(u) {
        assert((0xC0u8 | (((u >> 6) & 0x1F) as u8)) != 10u8) by (bit_vector);
        assert((0x80u8 | ((u & 0x3F) as u8)) != 10u8) by (bit_vector);
    } else if has_width_3_encoding(u) {
        assert((0xE0u8 | (((u >> 12) & 0x0F) as u8)) != 10u8) by (bit_vector);
        assert((0x80u8 | (((u >> 6) & 0x3F) as u8)) != 10u8) by (bit_vector);
        assert((0x80u8 | ((u & 0x3F) as u8)) != 10u8) by (bit_vector);
    } else {
        assert((0xF0u8 | (((u >> 18) & 0x7) as u8)) != 10u8) by (bit_vector);
        assert((0x80u8 | (((u >> 12) & 0x3F) as u8)) != 10u8) by (bit_vector);
        assert((0x80u8 | (((u >> 6) & 0x3F) as u8)) != 10u8) by (bit_vector);
        assert((0x80u8 | ((u & 0x3F) as u8)) != 10u8) by (bit_vector);
    }
}

/// The UTF-8 encoding of a `\n`-free character sequence contains no byte
/// 10, so line framing can never split inside it.
pub proof fn lemma_encode_no_lf(cs: Seq<char>)
    requires
        forall|j: int| 0 <= j < cs.len() ==> cs[j] != '\n',
    ensures
        forall|i: int| 0 <= i < encode_utf8(cs).len() ==> encode_utf8(cs)[i] != 10u8,
    decreases cs.len(),
{
    if cs.len() > 0 {
        lemma_scalar_no_lf(cs[0]);
        assert forall|j: int| 0 <= j < cs.drop_first().len() implies cs.drop_first()[j]
            != '\n' by {
            assert(cs.drop_first()[j] == cs[j + 1]);
        }
        lemma_encode_no_lf(cs.drop_first());
        let head = encode_scalar(cs[0] as u32);
        let tail = encode_utf8(cs.drop_first());
        assert(encode_utf8(cs) == head + tail);
        assert forall|i: int| 0 <= i < encode_utf8(cs).len() implies encode_utf8(cs)[i]
            != 10u8 by {
            if i < head.len() {
                assert(encode_utf8(cs)[i] == head[i]);
            } else {
                assert(encode_utf8(cs)[i] == tail[i - head.len()]);
            }
        }
    }
}

/// Line framing recognizes exactly the `\r\n` after a 10-free content:
/// the first line of `content ++ \r\n ++ rest` is `content`, and `rest`
/// follows it.
pub proof fn lemma_line_framing(c: Seq<u8>, rest: Seq<u8>)
    requires
        forall|i: int| 0 <= i < c.len() ==> c[i] != 10u8,
    ensures
        line_ok(c + seq![13u8, 10u8] + rest),
        line_content(c + seq![13u8, 10u8] + rest) == c,
        line_rest(c + seq![13u8, 10u8] + rest) == rest,
{
    let s = c + seq![13u8, 10u8] + rest;
    assert(s[c.len() as int + 1] == 10u8);
    assert forall|j: int| 0 <= j < c.len() + 1 implies s[j] != 10u8 by {
        if j < c.len() {
            assert(s[j] == c[j]);
        }
    }
    lemma_find_first_is(s, 10u8, c.len() as int + 1);
    assert(s.subrange(0, c.len() as int) =~= c);
    assert(s.subrange(c.len() as int + 2, s.len() as int) =~= rest);
}

/// A header line `key: value` splits back into its key and value; the
/// single space written after the colon is the one stripped.
pub proof fn lemma_header_kv_line(k: Seq<char>, v: Seq<char>)
    requires
        forall|j: int| 0 <= j < k.len() ==> k[j] != ':',
    ensures
        spec_header_kv(k + seq![':', ' '] + v) == Some((k, v)),
{
    let line = k + seq![':', ' '] + v;
    assert(line[k.len() as int] == ':');
    assert forall|j: int| 0 <= j < k.len() implies line[j] != ':' by {
        assert(line[j] == k[j]);
    }
    lemma_find_first_is(line, ':', k.len() as int);
    assert(line.subrange(0, k.len() as int) =~= k);
    let raw = line.subrange(k.len() as int + 1, line.len() as int);
    assert(raw =~= seq![' '] + v);
    assert(raw.drop_first() =~= v);
}

/// A header line `key:` with nothing after the colon is accepted, and its
/// value is the empty string.
pub proof fn lemma_empty_header_value(k: Seq<char>)
    requires
        forall|j: int| 0 <= j < k.len() ==> k[j] != ':',
    ensures
        spec_header_kv(k + seq![':']) == Some((k, Seq::<char>::empty())),
{
    let line = k + seq![':'];
    assert(line[k.len() as int] == ':');
    assert forall|j: int| 0 <= j < k.len() implies line[j] != ':' by {
        assert(line[j] == k[j]);
    }
    lemma_find_first_is(line, ':', k.len() as int);
    assert(line.subrange(0, k.len() as int) =~= k);
    assert(line.subrange(k.len() as int + 1, line.len() as int) =~= Seq::<char>::empty());
}

/// The header-block terminator is recognized only on an empty line: a
/// line with any content at all is handled as a header line, and only the
/// bare `\r\n` ends the block.
pub proof fn lemma_terminator_only_on_empty(c: Seq<u8>, rest: Seq<u8>, acc: Entries)
    requires
        forall|i: int| 0 <= i < c.len() ==> c[i] != 10u8,
    ensures
        c.len() == 0 ==> spec_headers(c + seq![13u8, 10u8] + rest, acc) == Ok::<
            _,
            ErrorKind,
        >((acc, rest)),
        c.len() > 0 && valid_utf8(c) ==> spec_headers(c + seq![13u8, 10u8] + rest, acc) == (
        match spec_header_kv(decode_utf8(c)) {
            None => Err(ErrorKind::Parsing),
            Some(kv) => spec_headers(rest, spec_upsert(acc, kv.0, kv.1)),
        }),
{
    lemma_line_framing(c, rest);
}

/// The wire form of a header block: one `key: value` line per pair, then
/// the empty line.
pub open spec fn header_block_bytes(pairs: Entries) -> Seq<u8>
    decreases pairs.len(),
{
    if pairs.len() == 0 {
        seq![13u8, 10u8]
    } else {
        encode_utf8(pairs[0].0 + seq![':', ' '] + pairs[0].1) + seq![13u8, 10u8]
            + header_block_bytes(pairs.drop_first())
    }
}

/// Pairs folded into entries, in order, with last-write-wins insertion.
pub open spec fn fold_upsert(acc: Entries, pairs: Entries) -> Entries
    decreases pairs.len(),
{
    if pairs.len() == 0 {
        acc
    } else {
        fold_upsert(spec_upsert(acc, pairs[0].0, pairs[0].1), pairs.drop_first())
    }
}

/// A key as it may stand in a header line: free of `:` and `\n`.
pub open spec fn header_key_ok(k: Seq<char>) -> bool {
    forall|j: int| 0 <= j < k.len() ==> k[j] != ':' && k[j] != '\n'
}

/// A value as it may stand in a header line: free of `\n`.
pub open spec fn header_value_ok(v: Seq<char>) -> bool {
    forall|j: int| 0 <= j < v.len() ==> v[j] != '\n'
}

/// Header-block round trip: a block of well-formed `key: value` lines
/// parses to exactly those pairs folded into the accumulator, consuming
/// the whole block through its blank line and leaving every byte after
/// it — the body — untouched.
pub proof fn lemma_header_block(pairs: Entries, acc: Entries, tail: Seq<u8>)
    requires
        forall|i: int|
            0 <= i < pairs.len() ==> header_key_ok(#[trigger] pairs[i].0) && header_value_ok(
                pairs[i].1,
            ),
    ensures
        spec_headers(header_block_bytes(pairs) + tail, acc) == Ok::<_, ErrorKind>(
            (fold_upsert(acc, pairs), tail),
        ),
    decreases pairs.len(),
{
    let s = header_block_bytes(pairs) + tail;
    if pairs.len() == 0 {
        assert(s =~= Seq::<u8>::empty() + seq![13u8, 10u8] + tail);
        lemma_line_framing(Seq::<u8>::empty(), tail);
    } else {
        let k = pairs[0].0;
        let v = pairs[0].1;
        let chars = k + seq![':', ' '] + v;
        assert forall|j: int| 0 <= j < chars.len() implies chars[j] != '\n' by {
            if j < k.len() {
                assert(chars[j] == k[j]);
            } else if j >= k.len() + 2 {
                assert(chars[j] == v[j - k.len() - 2]);
            }
        }
        lemma_encode_no_lf(chars);
        let enc = encode_utf8(chars);
        let restb = header_block_bytes(pairs.drop_first()) + tail;
        assert(s =~= enc + seq![13u8, 10u8] + restb);
        lemma_line_framing(enc, restb);
        assert(encode_scalar(chars[0] as u32).len() >= 1);
        assert(enc.len() > 0);
        encode_utf8_valid_utf8(chars);
        encode_utf8_decode_utf8(chars);
        lemma_header_kv_line(k, v);
        let rest_pairs = pairs.drop_first();
        assert forall|i: int|
            0 <= i < rest_pairs.len() implies header_key_ok(
            #[trigger] rest_pairs[i].0,
        ) && header_value_ok(
            rest_pairs[i].1,
        ) by {
            assert(rest_pairs[i] == pairs[i + 1]);
        }
        lemma_header_block(rest_pairs, spec_upsert(acc, k, v), tail);
    }
}

/// While the header block still lacks its terminator, parsing it can only
/// fail.
proof fn lemma_incomplete_headers(s: Seq<u8>, acc: Entries)
    requires
        !lines_complete(s),
    ensures
        spec_headers(s, acc) is Err,
    decreases s.len(),
{
    lemma_find_first(s, 10u8);
    match find_first(s, 10u8) {
        None => {},
        Some(i) => {
            if i >= 1 && s[i - 1] == 13u8 && i != 1 {
                if valid_utf8(line_content(s)) {
                    match spec_header_kv(decode_utf8(line_content(s))) {
                        None => {},
                        Some(kv) => {
                            lemma_incomplete_headers(
                                line_rest(s),
                                spec_upsert(acc, kv.0, kv.1),
                            );
                        },
                    }
                }
            }
        },
    }
}

/// A buffer that does not yet hold a complete head never parses to a
/// request: the reader loses nothing by waiting for
/// [`crate::request::spec_head_complete`] before parsing.
pub proof fn lemma_incomplete_head_never_parses(s: Seq<u8>)
    requires
        !spec_head_complete(s),
    ensures
        spec_parse(s) is Err,
{
    lemma_find_first(s, 10u8);
    match find_first(s, 10u8) {
        None => {},
        Some(i) => {
            if i >= 1 && s[i - 1] == 13u8 {
                if valid_utf8(line_content(s)) {
                    lemma_incomplete_headers(line_rest(s), Seq::empty());
                }
            }
        },
    }
}

/// A mapping overridden by pairs in order; a later pair for a key wins.
pub open spec fn override_map(
    m: Map<Seq<char>, Seq<char>>,
    pairs: Entries,
) -> Map<Seq<char>, Seq<char>>
    decreases pairs.len(),
{
    if pairs.len() == 0 {
        m
    } else {
        override_map(m.insert(pairs[0].0, pairs[0].1), pairs.drop_first())
    }
}

proof fn lemma_override_push(
    m: Map<Seq<char>, Seq<char>>,
    pairs: Entries,
    p: (Seq<char>, Seq<char>),
)
    ensures
        override_map(m, pairs.push(p)) == override_map(m, pairs).insert(p.0, p.1),
    decreases pairs.len(),
{
    if pairs.len() == 0 {
        reveal_with_fuel(override_map, 3);
        assert(pairs.push(p)[0] == p);
        assert(pairs.push(p).drop_first() =~= Seq::<(Seq<char>, Seq<char>)>::empty());
    } else {
        assert(pairs.push(p)[0] == pairs[0]);
        assert(pairs.push(p).drop_first() =~= pairs.drop_first().push(p));
        lemma_override_push(m.insert(pairs[0].0, pairs[0].1), pairs.drop_first(), p);
    }
}

/// The mapping an entry sequence denotes is its pairs overriding the
/// empty mapping in order.
pub proof fn lemma_assoc_is_override(pairs: Entries)
    ensures
        spec_assoc_map(pairs) == override_map(Map::empty(), pairs),
    decreases pairs.len(),
{
    if pairs.len() > 0 {
        lemma_assoc_is_override(pairs.drop_last());
        lemma_override_push(Map::empty(), pairs.drop_last(), pairs.last());
        assert(pairs.drop_last().push(pairs.last()) =~= pairs);
    }
}

/// Folding pairs into well-formed entries denotes exactly the overridden
/// mapping, and keeps the keys unique.
pub proof fn lemma_fold_upsert_map(acc: Entries, pairs: Entries)
    requires
        entries_wf(acc),
    ensures
        entries_wf(fold_upsert(acc, pairs)),
        spec_assoc_map(fold_upsert(acc, pairs)) == override_map(spec_assoc_map(acc), pairs),
    decreases pairs.len(),
{
    if pairs.len() > 0 {
        lemma_upsert_wf(acc, pairs[0].0, pairs[0].1);
        lemma_upsert_assoc_map(acc, pairs[0].0, pairs[0].1);
        lemma_fold_upsert_map(spec_upsert(acc, pairs[0].0, pairs[0].1), pairs.drop_first());
    }
}

/// Parsing a header block yields entries with one entry per distinct key
/// that denote the same mapping as the raw pair list: a duplicate key
/// retains only the last occurrence's value.  The bytes after the blank
/// line come back unconsumed.
pub proof fn lemma_header_block_map(pairs: Entries, tail: Seq<u8>)
    requires
        forall|i: int|
            0 <= i < pairs.len() ==> header_key_ok(#[trigger] pairs[i].0) && header_value_ok(
                pairs[i].1,
            ),
    ensures
        ({
            let r = spec_headers(header_block_bytes(pairs) + tail, Seq::empty());
            &&& r matches Ok(p)
            &&& r matches Ok(p) ==> entries_wf(p.0) && spec_assoc_map(p.0) == spec_assoc_map(
                pairs,
            ) && p.1 == tail
        }),
{
    lemma_header_block(pairs, Seq::empty(), tail);
    lemma_fold_upsert_map(Seq::empty(), pairs);
    lemma_assoc_is_override(pairs);
}

/// Every well-formed head parses, whatever body follows it: assembling a
/// request line from accepted tokens and a header block from well-formed
/// lines, parsing succeeds and reproduces the method, the version, the
/// path, the query pairs and the header mapping — and the body bytes
/// after the blank line play no part in the outcome.
pub proof fn lemma_well_formed_head_parses(
    m: Method,
    target: Seq<char>,
    v: Version,
    pairs: Entries,
    body: Seq<u8>,
)
    requires
        forall|j: int| 0 <= j < target.len() ==> target[j] != ' ' && target[j] != '\n',
        spec_target(target) is Some,
        forall|i: int|
            0 <= i < pairs.len() ==> header_key_ok(#[trigger] pairs[i].0) && header_value_ok(
                pairs[i].1,
            ),
    ensures
        ({
            let line = method_token(m) + seq![' '] + target + seq![' '] + version_token(v);
            let head = encode_utf8(line) + seq![13u8, 10u8] + header_block_bytes(pairs) + body;
            let r = spec_parse(head);
            &&& r matches Ok(req)
            &&& r matches Ok(req) ==> req.method == m && req.version == v && entries_wf(
                req.headers,
            ) && spec_assoc_map(req.headers) == spec_assoc_map(pairs) && (spec_target(target)
                matches Some(pq) ==> req.uri == pq.0 && req.query_params == pq.1)
        }),
{
    lemma_method_token(m);
    lemma_version_token(v);
    let mt = method_token(m);
    let vt = version_token(v);
    let line = mt + seq![' '] + target + seq![' '] + vt;
    assert forall|j: int| 0 <= j < line.len() implies line[j] != '\n' by {
        if j < mt.len() {
            assert(line[j] == mt[j]);
        } else if j == mt.len() {
            assert(line[j] == ' ');
        } else if j < mt.len() + 1 + target.len() {
            assert(line[j] == target[j - mt.len() - 1]);
        } else if j == mt.len() + 1 + target.len() {
            assert(line[j] == ' ');
        } else {
            assert(line[j] == vt[j - mt.len() - target.len() - 2]);
        }
    }
    lemma_encode_no_lf(line);
    let enc = encode_utf8(line);
    let blk = header_block_bytes(pairs) + body;
    let head = enc + seq![13u8, 10u8] + header_block_bytes(pairs) + body;
    assert(head =~= enc + seq![13u8, 10u8] + blk);
    lemma_line_framing(enc, blk);
    encode_utf8_valid_utf8(line);
    encode_utf8_decode_utf8(line);
    lemma_header_block_map(pairs, body);
    lemma_request_line_round_trip(m, target, v);
}

} // verus!
