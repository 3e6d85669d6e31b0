//! `application/x-www-form-urlencoded` request bodies, written by serde_urlencoded.
use vstd::prelude::*;
use vstd::utf8::encode_utf8;
use vstd::utf8::decode_utf8;
use crate::sorting::{ParamView, str_param_views};
use crate::logfile::{split_on, lemma_split_on_append, lemma_split_on_push};

verus! {

#[verifier::external_type_specification]
#[verifier::external_body]
pub struct ExFormError(serde_urlencoded::ser::Error);

/// A byte that form encoding leaves as it is: `*`, `-`, `.`, `_` and ASCII
/// letters and digits.
pub open spec fn form_byte_unchanged(b: u8) -> bool {
    b == 42 || b == 45 || b == 46 || b == 95 || (48 <= b && b <= 57) || (65 <= b && b <= 90) || (
    97 <= b && b <= 122)
}

/// An uppercase hexadecimal digit for `d < 16`.
pub open spec fn upper_hex_digit(d: nat) -> char {
    if d < 10 {
        (48 + d) as char
    } else {
        (55 + d) as char
    }
}

/// How form encoding writes one byte: unchanged, a space as `+`, any other
/// byte as `%` and two uppercase hexadecimal digits.
pub open spec fn form_byte(b: u8) -> Seq<char> {
    if form_byte_unchanged(b) {
        seq![b as char]
    } else if b == 32 {
        seq!['+']
    } else {
        seq!['%', upper_hex_digit((b / 16) as nat), upper_hex_digit((b % 16) as nat)]
    }
}

/// Form encoding of a byte sequence, byte by byte.
pub open spec fn form_bytes(bs: Seq<u8>) -> Seq<char>
    decreases bs.len(),
{
    if bs.len() == 0 {
        Seq::empty()
    } else {
        form_bytes(bs.drop_last()) + form_byte(bs.last())
    }
}

/// One pair as form encoding writes it: the encoded UTF-8 bytes of the name, `=`,
/// and those of the value.
pub open spec fn form_pair(p: ParamView) -> Seq<char> {
    form_bytes(encode_utf8(p.0)) + seq!['='] + form_bytes(encode_utf8(p.1))
}

/// The text that `serde_urlencoded::to_string` writes for a sequence of
/// name/value pairs: the encoded pairs, joined by `&`.
pub open spec fn form_urlencoded(pairs: Seq<ParamView>) -> Seq<char>
    decreases pairs.len(),
{
    if pairs.len() == 0 {
        Seq::empty()
    } else if pairs.len() == 1 {
        form_pair(pairs[0])
    } else {
        form_urlencoded(pairs.drop_last()) + seq!['&'] + form_pair(pairs.last())
    }
}

/// The value of a hexadecimal digit.
pub open spec fn hex_value(c: char) -> nat {
    if '0' <= c && c <= '9' {
        (c as int - 48) as nat
    } else if 'A' <= c && c <= 'F' {
        (c as int - 55) as nat
    } else if 'a' <= c && c <= 'f' {
        (c as int - 87) as nat
    } else {
        0
    }
}

/// Reads form-encoded text back as bytes: `+` is a space, `%` and two
/// hexadecimal digits are the byte they write, any other character is itself.
pub open spec fn form_decode_bytes(cs: Seq<char>) -> Seq<u8>
    decreases cs.len(),
{
    if cs.len() == 0 {
        Seq::empty()
    } else if cs[0] == '+' {
        seq![32u8] + form_decode_bytes(cs.drop_first())
    } else if cs[0] == '%' && cs.len() >= 3 {
        seq![(hex_value(cs[1]) * 16 + hex_value(cs[2])) as u8] + form_decode_bytes(cs.skip(3))
    } else {
        seq![cs[0] as u8] + form_decode_bytes(cs.drop_first())
    }
}

/// Reads one `name=value` piece back as a pair of texts.
pub open spec fn form_decode_pair(piece: Seq<char>) -> ParamView {
    let kv = split_on(piece, '=');
    (decode_utf8(form_decode_bytes(kv[0])), decode_utf8(form_decode_bytes(kv[1])))
}

/// Reads a form-encoded body back as its name/value pairs: the pieces between
/// `&`, each split at `=` and decoded.
pub open spec fn form_decode(text: Seq<char>) -> Seq<ParamView> {
    if text.len() == 0 {
        Seq::empty()
    } else {
        split_on(text, '&').map_values(|piece: Seq<char>| form_decode_pair(piece))
    }
}

proof fn lemma_form_bytes_cons(b: u8, rest: Seq<u8>)
    ensures
        form_bytes(seq![b] + rest) == form_byte(b) + form_bytes(rest),
    decreases rest.len(),
{
    if rest.len() == 0 {
        assert(seq![b] + rest =~= seq![b]);
        assert(seq![b].drop_last() =~= Seq::<u8>::empty());
        assert(seq![b].last() == b);
        assert(form_bytes(Seq::<u8>::empty()) =~= Seq::<char>::empty());
        assert(form_bytes(seq![b]) =~= form_byte(b));
        assert(form_byte(b) + form_bytes(rest) =~= form_byte(b));
    } else {
        lemma_form_bytes_cons(b, rest.drop_last());
        assert((seq![b] + rest).drop_last() =~= seq![b] + rest.drop_last());
        assert((seq![b] + rest).last() == rest.last());
        assert(form_byte(b) + form_bytes(rest.drop_last()) + form_byte(rest.last()) =~= form_byte(b) + (
        form_bytes(rest.drop_last()) + form_byte(rest.last())));
    }
}

proof fn lemma_upper_hex_digit(d: nat)
    requires
        d < 16,
    ensures
        hex_value(upper_hex_digit(d)) == d,
        upper_hex_digit(d) != '&' && upper_hex_digit(d) != '=',
{
    if d < 10 {
        assert(((48 + d) as char) as int == 48 + d);
    } else {
        assert(((55 + d) as char) as int == 55 + d);
    }
}

/// What a byte is written as, followed by more text, reads back as that byte
/// followed by what the text reads back as.
proof fn lemma_decode_form_byte(b: u8, cs: Seq<char>)
    ensures
        form_decode_bytes(form_byte(b) + cs) == seq![b] + form_decode_bytes(cs),
        forall|i: int| 0 <= i < form_byte(b).len() ==> #[trigger] form_byte(b)[i] != '&'
            && form_byte(b)[i] != '=',
{
    let e = form_byte(b) + cs;
    if form_byte_unchanged(b) {
        assert((b as char) as int == b as int);
        assert(((b as char) as u8) == b);
        assert(e.drop_first() =~= cs);
    } else if b == 32 {
        assert(e.drop_first() =~= cs);
    } else {
        lemma_upper_hex_digit((b / 16) as nat);
        lemma_upper_hex_digit((b % 16) as nat);
        assert(e.skip(3) =~= cs);
        assert(((b / 16) * 16 + b % 16) as u8 == b) by (bit_vector);
    }
}

/// Form-encoded bytes read back as those bytes, and hold neither `&` nor `=`.
proof fn lemma_decode_form_bytes(bs: Seq<u8>)
    ensures
        form_decode_bytes(form_bytes(bs)) == bs,
        forall|i: int| 0 <= i < form_bytes(bs).len() ==> #[trigger] form_bytes(bs)[i] != '&'
            && form_bytes(bs)[i] != '=',
    decreases bs.len(),
{
    if bs.len() == 0 {
        assert(form_bytes(bs) =~= Seq::<char>::empty());
    } else {
        let b = bs[0];
        let rest = bs.drop_first();
        assert(seq![b] + rest =~= bs);
        lemma_form_bytes_cons(b, rest);
        lemma_decode_form_bytes(rest);
        lemma_decode_form_byte(b, form_bytes(rest));
        assert(seq![b] + rest =~= bs);
        let f = form_bytes(bs);
        assert forall|i: int| 0 <= i < f.len() implies #[trigger] f[i] != '&' && f[i] != '=' by {
            if i < form_byte(b).len() {
                assert(f[i] == form_byte(b)[i]);
            } else {
                assert(f[i] == form_bytes(rest)[i - form_byte(b).len()]);
            }
        }
    }
}

/// Text without the separator is a single piece.
proof fn lemma_split_on_single(s: Seq<char>, sep: char)
    requires
        forall|i: int| 0 <= i < s.len() ==> #[trigger] s[i] != sep,
    ensures
        split_on(s, sep) == seq![s],
    decreases s.len(),
{
    if s.len() == 0 {
        assert(s =~= Seq::<char>::empty());
        assert(split_on(s, sep) =~= seq![s]);
    } else {
        lemma_split_on_single(s.drop_last(), sep);
        assert(s.drop_last().push(s.last()) =~= s);
        assert(seq![s.drop_last()].update(0, s.drop_last().push(s.last())) =~= seq![s]);
    }
}

/// Splitting `a`, the separator and `b`, where neither holds the separator.
proof fn lemma_split_on_two(a: Seq<char>, b: Seq<char>, sep: char)
    requires
        forall|i: int| 0 <= i < a.len() ==> #[trigger] a[i] != sep,
        forall|i: int| 0 <= i < b.len() ==> #[trigger] b[i] != sep,
    ensures
        split_on(a + seq![sep] + b, sep) == seq![a, b],
{
    lemma_split_on_single(a, sep);
    lemma_split_on_single(b, sep);
    lemma_split_on_push(a, sep, sep);
    assert(a + seq![sep] =~= a.push(sep));
    lemma_split_on_append(a + seq![sep], b, sep);
    assert(seq![a].push(Seq::empty()).drop_last() + seq![b] =~= seq![a, b]);
}

/// An encoded pair reads back as that pair, and holds no `&`.
proof fn lemma_decode_form_pair(p: ParamView)
    ensures
        form_decode_pair(form_pair(p)) == p,
        forall|i: int| 0 <= i < form_pair(p).len() ==> #[trigger] form_pair(p)[i] != '&',
        form_pair(p).len() > 0,
{
    let fk = form_bytes(encode_utf8(p.0));
    let fv = form_bytes(encode_utf8(p.1));
    lemma_decode_form_bytes(encode_utf8(p.0));
    lemma_decode_form_bytes(encode_utf8(p.1));
    lemma_split_on_two(fk, fv, '=');
    vstd::utf8::encode_utf8_decode_utf8(p.0);
    vstd::utf8::encode_utf8_decode_utf8(p.1);
    let f = form_pair(p);
    assert(f == fk + seq!['='] + fv);
    assert forall|i: int| 0 <= i < f.len() implies #[trigger] f[i] != '&' by {
        if i < fk.len() {
            assert(f[i] == fk[i]);
        } else if i > fk.len() {
            assert(f[i] == fv[i - fk.len() - 1]);
        }
    }
    assert(f[fk.len() as int] == '=');
}

/// The pieces between `&` of an encoded sequence of pairs are the encoded pairs.
proof fn lemma_split_form(ps: Seq<ParamView>)
    requires
        ps.len() > 0,
    ensures
        split_on(form_urlencoded(ps), '&') == ps.map_values(|p: ParamView| form_pair(p)),
    decreases ps.len(),
{
    lemma_decode_form_pair(ps.last());
    if ps.len() == 1 {
        lemma_split_on_single(form_pair(ps[0]), '&');
        assert(ps.map_values(|p: ParamView| form_pair(p)) =~= seq![form_pair(ps[0])]);
    } else {
        let x = form_urlencoded(ps.drop_last());
        lemma_split_form(ps.drop_last());
        lemma_split_on_push(x, '&', '&');
        assert(x + seq!['&'] =~= x.push('&'));
        lemma_split_on_single(form_pair(ps.last()), '&');
        lemma_split_on_append(x + seq!['&'], form_pair(ps.last()), '&');
        assert(form_urlencoded(ps) == x + seq!['&'] + form_pair(ps.last()));
        assert(ps.map_values(|p: ParamView| form_pair(p)) =~= ps.drop_last().map_values(
            |p: ParamView| form_pair(p),
        ) + seq![form_pair(ps.last())]);
    }
}

/// Form encoding loses nothing: the encoded text reads back as the very pairs
/// that were encoded, in order.
pub proof fn lemma_form_urlencoded_decodes(ps: Seq<ParamView>)
    ensures
        form_decode(form_urlencoded(ps)) == ps,
{
    if ps.len() > 0 {
        lemma_split_form(ps);
        lemma_decode_form_pair(ps.last());
        assert(form_urlencoded(ps).len() > 0);
        assert forall|k: int| 0 <= k < ps.len() implies #[trigger] form_decode(form_urlencoded(ps))[k]
            == ps[k] by {
            lemma_decode_form_pair(ps[k]);
        }
        assert(form_decode(form_urlencoded(ps)) =~= ps);
    } else {
        assert(form_urlencoded(ps) =~= Seq::<char>::empty());
        assert(form_decode(form_urlencoded(ps)) =~= ps);
    }
}

/// Calls `serde_urlencoded::to_string` on a list of name/value pairs. The
/// contract claims that the result is the text `form_urlencoded` of the pairs
/// and that it is never an error. The source serializes a sequence element by
/// element; a pair of two strings goes through `PairSerializer` as a key and a
/// value, both accepted, into `form_urlencoded::Serializer::append_pair`, which
/// writes `&` before every pair but the first, then the name's UTF-8 bytes
/// through `byte_serialize`, `=`, and the value's bytes the same way;
/// `byte_serialize` keeps `*-._` and ASCII letters and digits, writes a space
/// as `+` and other bytes with `percent_encode_byte` (uppercase `%XX`).
#[verifier::external_body]
pub(crate) fn urlencode_pairs(pairs: Vec<(&str, &str)>) -> (r: Result<String, serde_urlencoded::ser::Error>)
    ensures
        r is Ok,
        r matches Ok(text) ==> text@ == form_urlencoded(str_param_views(pairs@)),
{
    serde_urlencoded::to_string(pairs)
}

} // verus!
