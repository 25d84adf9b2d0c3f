//! Deterministic binary wire codec for the message model.
//!
//! The format is self-describing and fixed to the current schema: a
//! tagged union is a one-byte discriminant followed by the variant's
//! fields in declaration order; a string is its character count as a
//! little-endian `u64` followed by one little-endian `u32` per character;
//! an optional value is a presence byte (`0` or `1`) followed by the
//! value when present; a sequence is length-prefixed.  No padding, no
//! version field.
//!
//! Every encoder's contract gives the produced bytes exactly, as a spec
//! function of the value's model.  Every decoder's contract is two-sided:
//! a success consumed exactly the encoding of the returned value, and
//! whenever the input carries an encoding of some model, the decoder
//! accepts it and returns exactly that model.  Together these give the
//! round-trip law: decoding an encoding yields the value that was
//! encoded, and decoding fails exactly on buffers no value encodes to.

use vstd::prelude::*;
use vstd::bytes::*;
use vstd::slice::*;

use crate::plugin::{PluginAction, PluginActionModel, plugin_action_model};
use crate::results::{
    Action, ActionModel, AddBookmark, Bookmark, BookmarkModel, CopyImage, CopyText, OpenApp,
    OpenFile, OpenURL, RemoveBookmark, ResultModel, Session, ShowResults, TUIResult, action_model,
    bookmark_model, opt_action_model, result_model, results_model, lemma_results_model,
};

verus! {

/// Decoding failed: the buffer is truncated, carries an out-of-range
/// discriminant or character, or holds bytes beyond the encoded value.
#[derive(Debug, Clone, Copy, PartialEq, Eq)]
pub struct DecodeError;

/// Relies on `char::from_u32`: it returns `Some` exactly for the code
/// points below `0xD800` (before the surrogate range) and in
/// `0xE000..=0x10FFFF`, and the returned character is that code point.
#[verifier::external_body]
fn char_from_u32(v: u32) -> (r: Option<char>)
    ensures
        r is Some <==> (v < 0xD800 || (0xDFFF < v && v <= 0x10FFFF)),
        r matches Some(c) ==> c as u32 == v,
{
    char::from_u32(v)
}

/// Relies on `String` implementing `FromIterator<char>`: collecting
/// yields a string whose characters are exactly the iterated elements.
#[verifier::external_body]
fn string_from_chars(chars: &Vec<char>) -> (s: String)
    ensures
        s@ == chars@,
{
    chars.iter().collect()
}

pub open spec fn spec_enc_u64(x: u64) -> Seq<u8> {
    spec_u64_to_le_bytes(x)
}

pub open spec fn spec_enc_char(c: char) -> Seq<u8> {
    spec_u32_to_le_bytes(c as u32)
}

pub open spec fn spec_enc_chars(s: Seq<char>) -> Seq<u8>
    decreases s.len(),
{
    if s.len() == 0 {
        Seq::empty()
    } else {
        spec_enc_char(s[0]) + spec_enc_chars(s.subrange(1, s.len() as int))
    }
}

pub open spec fn spec_enc_string(s: Seq<char>) -> Seq<u8> {
    spec_enc_u64(s.len() as u64) + spec_enc_chars(s)
}

pub open spec fn spec_enc_opt_string(o: Option<Seq<char>>) -> Seq<u8> {
    match o {
        None => seq![0u8],
        Some(s) => seq![1u8] + spec_enc_string(s),
    }
}

pub open spec fn spec_session_tag(s: Session) -> u8 {
    match s {
        Session::Shutdown => 0u8,
        Session::Restart => 1u8,
        Session::Suspend => 2u8,
        Session::Logout => 3u8,
    }
}

pub open spec fn spec_enc_session(s: Session) -> Seq<u8> {
    seq![spec_session_tag(s)]
}

pub open spec fn spec_enc_bookmark(b: BookmarkModel) -> Seq<u8> {
    match b {
        BookmarkModel::Add { name, url } => seq![0u8] + (spec_enc_string(name)
            + spec_enc_string(url)),
        BookmarkModel::Remove { id } => seq![1u8] + spec_enc_u64(id as u64),
    }
}

/// The character encoding is four bytes per character.
pub proof fn lemma_enc_chars_len(s: Seq<char>)
    ensures
        spec_enc_chars(s).len() == 4 * s.len(),
    decreases s.len(),
{
    vstd::bytes::lemma_auto_spec_u32_to_from_le_bytes();
    if s.len() != 0 {
        lemma_enc_chars_len(s.subrange(1, s.len() as int));
    }
}

/// Character encodings concatenate.
pub proof fn lemma_enc_chars_append(s1: Seq<char>, s2: Seq<char>)
    ensures
        spec_enc_chars(s1 + s2) == spec_enc_chars(s1) + spec_enc_chars(s2),
    decreases s1.len(),
{
    if s1.len() == 0 {
        assert(s1 + s2 =~= s2);
        assert(spec_enc_chars(s1) + spec_enc_chars(s2) =~= spec_enc_chars(s2));
    } else {
        let t = s1 + s2;
        assert(t[0] == s1[0]);
        assert(t.subrange(1, t.len() as int) =~= s1.subrange(1, s1.len() as int) + s2);
        lemma_enc_chars_append(s1.subrange(1, s1.len() as int), s2);
        assert(spec_enc_chars(s1 + s2) =~= spec_enc_chars(s1) + spec_enc_chars(s2));
    }
}

/// Extending the encoded prefix by one character appends that
/// character's encoding.
pub proof fn lemma_enc_chars_snoc(s: Seq<char>, i: int)
    requires
        0 <= i < s.len(),
    ensures
        spec_enc_chars(s.take(i + 1)) == spec_enc_chars(s.take(i)) + spec_enc_char(s[i]),
{
    let one = seq![s[i]];
    assert(s.take(i + 1) =~= s.take(i) + one);
    lemma_enc_chars_append(s.take(i), one);
    assert(one.subrange(1, 1) =~= Seq::<char>::empty());
    assert(spec_enc_chars(Seq::<char>::empty()) =~= Seq::<u8>::empty());
    assert(spec_enc_chars(one) =~= spec_enc_char(s[i]));
}

/// The bytes of one character inside an encoded character sequence.
pub proof fn lemma_enc_chars_segment(s: Seq<char>, i: int)
    requires
        0 <= i < s.len(),
    ensures
        spec_enc_chars(s).subrange(4 * i, 4 * i + 4) == spec_enc_char(s[i]),
    decreases i,
{
    vstd::bytes::lemma_auto_spec_u32_to_from_le_bytes();
    lemma_enc_chars_len(s);
    if i == 0 {
        lemma_enc_chars_len(s.subrange(1, s.len() as int));
        assert(spec_enc_chars(s).subrange(0, 4) =~= spec_enc_char(s[0]));
    } else {
        let s1 = s.subrange(1, s.len() as int);
        lemma_enc_chars_segment(s1, i - 1);
        lemma_enc_chars_len(s1);
        assert(spec_enc_chars(s).subrange(4 * i, 4 * i + 4) =~= spec_enc_chars(s1).subrange(
            4 * (i - 1),
            4 * (i - 1) + 4,
        ));
        assert(s1[i - 1] == s[i]);
    }
}

/// Splitting a known concatenation out of a byte range.
pub proof fn lemma_split(s: Seq<u8>, a: int, c: int, x: Seq<u8>, y: Seq<u8>)
    requires
        0 <= a <= c <= s.len(),
        s.subrange(a, c) == x + y,
    ensures
        a + x.len() + y.len() == c,
        s.subrange(a, a + x.len()) == x,
        s.subrange(a + x.len(), c) == y,
{
    assert(s.subrange(a, c).len() == c - a);
    assert(s.subrange(a, a + x.len()) =~= x) by {
        assert forall|k: int| 0 <= k < x.len() implies s.subrange(a, a + x.len())[k] == x[k] by {
            assert((x + y)[k] == x[k]);
            assert(s.subrange(a, c)[k] == s[a + k]);
        }
    }
    assert(s.subrange(a + x.len(), c) =~= y) by {
        assert forall|k: int| 0 <= k < y.len() implies s.subrange(a + x.len(), c)[k] == y[k] by {
            assert((x + y)[x.len() + k] == y[k]);
            assert(s.subrange(a, c)[x.len() + k] == s[a + x.len() + k]);
        }
    }
}

/// Joining two adjacent byte ranges into one concatenation.
pub proof fn lemma_join(s: Seq<u8>, a: int, b: int, c: int)
    requires
        0 <= a <= b <= c <= s.len(),
    ensures
        s.subrange(a, c) == s.subrange(a, b) + s.subrange(b, c),
{
    assert(s.subrange(a, c) =~= s.subrange(a, b) + s.subrange(b, c));
}

fn enc_byte(out: &mut Vec<u8>, b: u8)
    ensures
        final(out)@ == old(out)@ + seq![b],
{
    out.push(b);
    proof {
        assert(old(out)@.push(b) =~= old(out)@ + seq![b]);
    }
}

fn enc_u64(out: &mut Vec<u8>, x: u64)
    ensures
        final(out)@ == old(out)@ + spec_enc_u64(x),
{
    let mut bytes = u64_to_le_bytes(x);
    out.append(&mut bytes);
}

fn enc_u32(out: &mut Vec<u8>, x: u32)
    ensures
        final(out)@ == old(out)@ + spec_u32_to_le_bytes(x),
{
    let mut bytes = u32_to_le_bytes(x);
    out.append(&mut bytes);
}

fn enc_string(out: &mut Vec<u8>, s: &str)
    ensures
        final(out)@ == old(out)@ + spec_enc_string(s@),
{
    let n = s.unicode_len();
    enc_u64(out, n as u64);
    let mut i: usize = 0;
    while i < n
        invariant
            n == s@.len(),
            i <= n,
            out@ == old(out)@ + spec_enc_u64(n as u64) + spec_enc_chars(s@.take(i as int)),
        decreases n - i,
    {
        let c = s.get_char(i);
        enc_u32(out, c as u32);
        proof {
            lemma_enc_chars_snoc(s@, i as int);
            assert(out@ == old(out)@ + spec_enc_u64(n as u64) + spec_enc_chars(
                s@.take(i + 1 as int),
            ));
        }
        i += 1;
    }
    proof {
        assert(s@.take(n as int) =~= s@);
    }
}

fn enc_opt_string(out: &mut Vec<u8>, o: &Option<String>)
    ensures
        final(out)@ == old(out)@ + spec_enc_opt_string(o.deep_view()),
{
    match o {
        None => {
            enc_byte(out, 0);
        },
        Some(s) => {
            enc_byte(out, 1);
            enc_string(out, s.as_str());
            proof {
                assert(old(out)@ + seq![1u8] + spec_enc_string(s@) =~= old(out)@ + (seq![1u8]
                    + spec_enc_string(s@)));
            }
        },
    }
}

fn enc_session(out: &mut Vec<u8>, s: &Session)
    ensures
        final(out)@ == old(out)@ + spec_enc_session(*s),
{
    match s {
        Session::Shutdown => enc_byte(out, 0),
        Session::Restart => enc_byte(out, 1),
        Session::Suspend => enc_byte(out, 2),
        Session::Logout => enc_byte(out, 3),
    }
}

fn enc_bookmark(out: &mut Vec<u8>, b: &Bookmark)
    ensures
        final(out)@ == old(out)@ + spec_enc_bookmark(bookmark_model(*b)),
{
    match b {
        Bookmark::Add(v) => {
            enc_byte(out, 0);
            enc_string(out, v.name.as_str());
            enc_string(out, v.url.as_str());
            proof {
                assert(old(out)@ + seq![0u8] + spec_enc_string(v.name@) + spec_enc_string(v.url@)
                    =~= old(out)@ + (seq![0u8] + spec_enc_string(v.name@) + spec_enc_string(
                    v.url@,
                )));
            }
        },
        Bookmark::Remove(v) => {
            enc_byte(out, 1);
            enc_u64(out, v.id as u64);
            proof {
                assert(old(out)@ + seq![1u8] + spec_enc_u64(v.id as u64) =~= old(out)@ + (
                seq![1u8] + spec_enc_u64(v.id as u64)));
            }
        },
    }
}

/// Reads one byte.  Fails exactly when the buffer ends at `pos`.
fn dec_byte(data: &[u8], pos: usize) -> (r: Result<(u8, usize), DecodeError>)
    requires
        pos <= data@.len(),
    ensures
        r matches Ok(bp) ==> bp.1 == pos + 1 && pos + 1 <= data@.len() && bp.0 == data@[pos as int],
        r is Err <==> data@.len() == pos,
{
    let n = data.len();
    if pos < n {
        let b = *slice_index_get(data, pos);
        Ok((b, pos + 1))
    } else {
        Err(DecodeError)
    }
}

/// Reads a little-endian `u64`.  Fails exactly when fewer than eight
/// bytes remain.
fn dec_u64(data: &[u8], pos: usize) -> (r: Result<(u64, usize), DecodeError>)
    requires
        pos <= data@.len(),
    ensures
        r matches Ok(xp) ==> xp.1 == pos + 8 && pos + 8 <= data@.len() && data@.subrange(
            pos as int,
            pos + 8,
        ) == spec_enc_u64(xp.0),
        r is Err <==> data@.len() < pos + 8,
{
    let n = data.len();
    if n - pos < 8 {
        Err(DecodeError)
    } else {
        let bytes = slice_subrange(data, pos, pos + 8);
        let x = u64_from_le_bytes(bytes);
        proof {
            lemma_auto_spec_u64_to_from_le_bytes();
        }
        Ok((x, pos + 8))
    }
}

/// Reads a little-endian `u32` from a position known to have four bytes.
fn dec_u32_at(data: &[u8], pos: usize) -> (x: u32)
    requires
        pos + 4 <= data@.len(),
    ensures
        data@.subrange(pos as int, pos + 4) == spec_u32_to_le_bytes(x),
{
    let n = data.len();
    proof {
        assert(pos + 4 <= n);
    }
    let bytes = slice_subrange(data, pos, pos + 4);
    let x = u32_from_le_bytes(bytes);
    proof {
        lemma_auto_spec_u32_to_from_le_bytes();
    }
    x
}

/// Reads a length-prefixed string.
fn dec_string(data: &[u8], pos: usize) -> (r: Result<(String, usize), DecodeError>)
    requires
        pos <= data@.len(),
    ensures
        r matches Ok(sp) ==> pos + 8 <= sp.1 <= data@.len() && data@.subrange(
            pos as int,
            sp.1 as int,
        ) == spec_enc_string(sp.0@),
        forall|cs: Seq<char>, q: int|
            #![trigger spec_enc_string(cs), data@.subrange(pos as int, q)]
            pos <= q <= data@.len() && data@.subrange(pos as int, q) == spec_enc_string(cs) ==> (
            r matches Ok(sp) && sp.0@ == cs && sp.1 == q),
{
    proof {
        lemma_auto_spec_u64_to_from_le_bytes();
    }
    let n_total = data.len();
    match dec_u64(data, pos) {
        Err(e) => {
            proof {
                assert forall|cs: Seq<char>, q: int|
                    pos <= q <= data@.len() && #[trigger] data@.subrange(pos as int, q)
                        == #[trigger] spec_enc_string(cs) implies false by {
                    lemma_enc_chars_len(cs);
                    lemma_split(
                        data@,
                        pos as int,
                        q,
                        spec_enc_u64(cs.len() as u64),
                        spec_enc_chars(cs),
                    );
                }
            }
            Err(e)
        },
        Ok((len64, p1)) => {
            let rem = n_total - p1;
            if len64 > (rem / 4) as u64 {
                proof {
                    assert forall|cs: Seq<char>, q: int|
                        pos <= q <= data@.len() && #[trigger] data@.subrange(pos as int, q)
                            == #[trigger] spec_enc_string(cs) implies false by {
                        lemma_enc_chars_len(cs);
                        lemma_split(
                            data@,
                            pos as int,
                            q,
                            spec_enc_u64(cs.len() as u64),
                            spec_enc_chars(cs),
                        );
                        assert(cs.len() as u64 == len64);
                        assert(4 * cs.len() == q - p1);
                        assert(cs.len() <= rem / 4);
                    }
                }
                return Err(DecodeError);
            }
            let n = len64 as usize;
            let mut chars: Vec<char> = Vec::new();
            let mut p = p1;
            let mut i: usize = 0;
            proof {
                assert(n == len64);
                assert(data@.subrange(p1 as int, p1 as int) =~= spec_enc_chars(chars@));
                assert forall|cs: Seq<char>, q: int|
                    pos <= q <= data@.len() && #[trigger] data@.subrange(pos as int, q)
                        == #[trigger] spec_enc_string(cs) implies cs.len() == n && chars@
                    == cs.take(0) by {
                    lemma_enc_chars_len(cs);
                    lemma_split(
                        data@,
                        pos as int,
                        q,
                        spec_enc_u64(cs.len() as u64),
                        spec_enc_chars(cs),
                    );
                    assert(cs.len() as u64 == len64);
                    assert(4 * cs.len() == q - p1);
                    assert(cs.len() == n);
                    assert(chars@ =~= cs.take(0));
                }
            }
            while i < n
                invariant
                    n == len64,
                    4 * n <= n_total - p1,
                    n_total == data@.len(),
                    pos + 8 == p1,
                    data@.subrange(pos as int, p1 as int) == spec_enc_u64(len64),
                    i <= n,
                    p == p1 + 4 * i,
                    chars@.len() == i,
                    data@.subrange(p1 as int, p as int) == spec_enc_chars(chars@),
                    forall|cs: Seq<char>, q: int|
                        #![trigger spec_enc_string(cs), data@.subrange(pos as int, q)]
                        pos <= q <= data@.len() && data@.subrange(pos as int, q) == spec_enc_string(
                            cs,
                        ) ==> cs.len() == n && chars@ == cs.take(i as int),
                decreases n - i,
            {
                let v = dec_u32_at(data, p);
                let copt = char_from_u32(v);
                proof {
                    assert forall|cs: Seq<char>, q: int|
                        pos <= q <= data@.len() && #[trigger] data@.subrange(pos as int, q)
                            == #[trigger] spec_enc_string(cs) implies {
                        &&& v == cs[i as int] as u32
                        &&& copt is Some
                    } by {
                        assert(cs.len() == n && chars@ == cs.take(i as int));
                        lemma_enc_chars_len(cs);
                        lemma_split(
                            data@,
                            pos as int,
                            q,
                            spec_enc_u64(cs.len() as u64),
                            spec_enc_chars(cs),
                        );
                        assert(data@.subrange(p1 as int, q) == spec_enc_chars(cs));
                        assert(q - p1 == 4 * cs.len());
                        lemma_enc_chars_segment(cs, i as int);
                        assert(data@.subrange(p as int, p + 4) == spec_enc_chars(cs).subrange(
                            4 * i,
                            4 * i + 4,
                        )) by {
                            assert forall|k: int| 0 <= k < 4 implies #[trigger] data@.subrange(
                                p as int,
                                p + 4,
                            )[k] == spec_enc_chars(cs).subrange(4 * i, 4 * i + 4)[k] by {
                                assert(spec_enc_chars(cs)[4 * i + k] == data@.subrange(
                                    p1 as int,
                                    q,
                                )[4 * i + k]);
                                assert(data@.subrange(p1 as int, q)[4 * i + k] == data@[p + k]);
                                assert(data@.subrange(p as int, p + 4)[k] == data@[p + k]);
                            }
                            assert(data@.subrange(p as int, p + 4) =~= spec_enc_chars(cs).subrange(
                                4 * i,
                                4 * i + 4,
                            ));
                        }
                        vstd::bytes::lemma_auto_spec_u32_to_from_le_bytes();
                        vstd::utf8::char_is_scalar(cs[i as int]);
                        assert(data@.subrange(p as int, p + 4) == spec_u32_to_le_bytes(v));
                        assert(spec_u32_to_le_bytes(cs[i as int] as u32) == spec_u32_to_le_bytes(
                            v,
                        ));
                        assert(spec_u32_to_le_bytes(v).len() == 4);
                        assert(spec_u32_to_le_bytes(cs[i as int] as u32).len() == 4);
                        assert(v == cs[i as int] as u32);
                    }
                }
                match copt {
                    None => {
                        return Err(DecodeError);
                    },
                    Some(c) => {
                        let ghost chars_pre = chars@;
                        chars.push(c);
                        proof {
                            assert(chars@ == chars_pre.push(c));
                            assert(chars@.take(i as int) =~= chars_pre);
                            assert(chars@.take(i + 1) =~= chars@);
                            assert(chars@[i as int] == c);
                            lemma_enc_chars_snoc(chars@, i as int);
                            assert(spec_enc_chars(chars@) == spec_enc_chars(chars_pre)
                                + spec_enc_char(c));
                            assert(spec_enc_char(c) == spec_u32_to_le_bytes(v));
                            lemma_join(data@, p1 as int, p as int, p + 4);
                            assert(data@.subrange(p1 as int, p + 4) == spec_enc_chars(chars@));
                            assert forall|cs: Seq<char>, q: int|
                                pos <= q <= data@.len() && #[trigger] data@.subrange(pos as int, q)
                                    == #[trigger] spec_enc_string(cs) implies chars@ == cs.take(
                                i + 1,
                            ) by {
                                assert(chars_pre == cs.take(i as int));
                                assert(c as u32 == cs[i as int] as u32);
                                vstd::utf8::char_u32_cast(c, c as u32);
                                vstd::utf8::char_u32_cast(cs[i as int], c as u32);
                                assert(c == cs[i as int]);
                                assert(cs.take(i + 1) =~= cs.take(i as int).push(c));
                            }
                        }
                        p = p + 4;
                        i += 1;
                    },
                }
            }
            let s = string_from_chars(&chars);
            proof {
                lemma_join(data@, pos as int, p1 as int, p as int);
                lemma_enc_chars_len(chars@);
                assert(data@.subrange(pos as int, p as int) == spec_enc_string(s@));
                assert forall|cs: Seq<char>, q: int|
                    pos <= q <= data@.len() && #[trigger] data@.subrange(pos as int, q)
                        == #[trigger] spec_enc_string(cs) implies s@ == cs && p == q by {
                    lemma_enc_chars_len(cs);
                    lemma_split(
                        data@,
                        pos as int,
                        q,
                        spec_enc_u64(cs.len() as u64),
                        spec_enc_chars(cs),
                    );
                    assert(cs.take(n as int) =~= cs);
                }
            }
            Ok((s, p))
        },
    }
}

/// The discriminant byte of an action's encoding.
pub open spec fn spec_action_tag(a: ActionModel) -> u8 {
    match a {
        ActionModel::OpenApp { .. } => 0u8,
        ActionModel::OpenFile { .. } => 1u8,
        ActionModel::OpenURL { .. } => 2u8,
        ActionModel::CopyText { .. } => 3u8,
        ActionModel::CopyImage { .. } => 4u8,
        ActionModel::ShowResults { .. } => 5u8,
        ActionModel::OpenSettings => 6u8,
        ActionModel::Session { .. } => 7u8,
        ActionModel::Bookmark { .. } => 8u8,
    }
}

pub open spec fn spec_enc_action(a: ActionModel) -> Seq<u8>
    decreases a, 0int,
{
    match a {
        ActionModel::OpenApp { path } => seq![0u8] + spec_enc_string(path),
        ActionModel::OpenFile { path } => seq![1u8] + spec_enc_string(path),
        ActionModel::OpenURL { url } => seq![2u8] + spec_enc_string(url),
        ActionModel::CopyText { text } => seq![3u8] + spec_enc_string(text),
        ActionModel::CopyImage { path } => seq![4u8] + spec_enc_string(path),
        ActionModel::ShowResults { results } => seq![5u8] + spec_enc_results_msg(results),
        ActionModel::OpenSettings => seq![6u8],
        ActionModel::Session { session } => seq![7u8] + spec_enc_session(session),
        ActionModel::Bookmark { bookmark } => seq![8u8] + spec_enc_bookmark(bookmark),
    }
}

pub open spec fn spec_enc_opt_action(o: Option<ActionModel>) -> Seq<u8>
    decreases o, 0int,
{
    match o {
        None => seq![0u8],
        Some(a) => seq![1u8] + spec_enc_action(a),
    }
}

pub open spec fn spec_enc_result(r: ResultModel) -> Seq<u8>
    decreases r, 0int,
{
    spec_enc_opt_string(r.icon_path) + (spec_enc_string(r.text) + (spec_enc_opt_string(
        r.secondary_text,
    ) + (spec_enc_opt_action(r.action) + spec_enc_string(r.info))))
}

pub open spec fn spec_enc_result_seq(s: Seq<ResultModel>) -> Seq<u8>
    decreases s, 0int,
{
    if s.len() == 0 {
        Seq::empty()
    } else {
        spec_enc_result(s[0]) + spec_enc_result_seq(s.subrange(1, s.len() as int))
    }
}

/// A length-prefixed sequence of results: one whole response message.
pub open spec fn spec_enc_results_msg(s: Seq<ResultModel>) -> Seq<u8>
    decreases s, 1int,
{
    spec_enc_u64(s.len() as u64) + spec_enc_result_seq(s)
}

/// Result-sequence encodings concatenate.
pub proof fn lemma_enc_result_seq_append(s1: Seq<ResultModel>, s2: Seq<ResultModel>)
    ensures
        spec_enc_result_seq(s1 + s2) == spec_enc_result_seq(s1) + spec_enc_result_seq(s2),
    decreases s1.len(),
{
    if s1.len() == 0 {
        assert(s1 + s2 =~= s2);
        assert(spec_enc_result_seq(s1) + spec_enc_result_seq(s2) =~= spec_enc_result_seq(s2));
    } else {
        let t = s1 + s2;
        assert(t[0] == s1[0]);
        assert(t.subrange(1, t.len() as int) =~= s1.subrange(1, s1.len() as int) + s2);
        lemma_enc_result_seq_append(s1.subrange(1, s1.len() as int), s2);
        assert(spec_enc_result_seq(s1 + s2) =~= spec_enc_result_seq(s1) + spec_enc_result_seq(
            s2,
        ));
    }
}

/// Appending one result appends its encoding.
pub proof fn lemma_enc_result_seq_snoc(s: Seq<ResultModel>, x: ResultModel)
    ensures
        spec_enc_result_seq(s.push(x)) == spec_enc_result_seq(s) + spec_enc_result(x),
{
    let one = seq![x];
    assert(s.push(x) =~= s + one);
    lemma_enc_result_seq_append(s, one);
    assert(one.subrange(1, 1) =~= Seq::<ResultModel>::empty());
    assert(spec_enc_result_seq(Seq::<ResultModel>::empty()) =~= Seq::<u8>::empty());
    assert(spec_enc_result_seq(one) =~= spec_enc_result(x));
}

/// Every string encoding takes at least its length prefix.
pub proof fn lemma_enc_string_len(s: Seq<char>)
    ensures
        spec_enc_string(s).len() == 8 + 4 * s.len(),
{
    lemma_auto_spec_u64_to_from_le_bytes();
    lemma_enc_chars_len(s);
}

/// Every optional-string encoding takes at least its presence byte.
pub proof fn lemma_enc_opt_string_len(o: Option<Seq<char>>)
    ensures
        spec_enc_opt_string(o).len() >= 1,
        spec_enc_opt_string(o)[0] == (if o is Some { 1u8 } else { 0u8 }),
{
    match o {
        None => {},
        Some(s) => {
            lemma_enc_string_len(s);
        },
    }
}

/// Every action encoding starts with its discriminant byte.
pub proof fn lemma_enc_action_head(a: ActionModel)
    ensures
        spec_enc_action(a).len() >= 1,
        spec_enc_action(a)[0] == spec_action_tag(a),
        spec_action_tag(a) <= 8,
{
}

/// Every optional-action encoding takes at least its presence byte.
pub proof fn lemma_enc_opt_action_len(o: Option<ActionModel>)
    ensures
        spec_enc_opt_action(o).len() >= 1,
        spec_enc_opt_action(o)[0] == (if o is Some { 1u8 } else { 0u8 }),
{
    match o {
        None => {},
        Some(a) => {
            lemma_enc_action_head(a);
        },
    }
}

/// A result's encoding is at least as long as its five fields' minima.
pub proof fn lemma_enc_result_len(r: ResultModel)
    ensures
        spec_enc_result(r).len() >= 19,
{
    lemma_enc_opt_string_len(r.icon_path);
    lemma_enc_string_len(r.text);
    lemma_enc_opt_string_len(r.secondary_text);
    lemma_enc_opt_action_len(r.action);
    lemma_enc_string_len(r.info);
}

/// A result sequence's encoding is at least as long as the sequence.
pub proof fn lemma_enc_result_seq_len(s: Seq<ResultModel>)
    ensures
        spec_enc_result_seq(s).len() >= s.len(),
    decreases s,
{
    if s.len() != 0 {
        lemma_enc_result_len(s[0]);
        lemma_enc_result_seq_len(s.subrange(1, s.len() as int));
    }
}

fn enc_opt_action(out: &mut Vec<u8>, o: &Option<Action>)
    ensures
        final(out)@ == old(out)@ + spec_enc_opt_action(opt_action_model(*o)),
    decreases *o,
{
    match o {
        None => {
            enc_byte(out, 0);
        },
        Some(a) => {
            enc_byte(out, 1);
            enc_action(out, a);
            proof {
                assert(old(out)@ + seq![1u8] + spec_enc_action(action_model(*a)) =~= old(out)@ + (
                seq![1u8] + spec_enc_action(action_model(*a))));
            }
        },
    }
}

fn enc_action(out: &mut Vec<u8>, a: &Action)
    ensures
        final(out)@ == old(out)@ + spec_enc_action(action_model(*a)),
    decreases *a,
{
    match a {
        Action::OpenApp(v) => {
            enc_byte(out, 0);
            enc_string(out, v.path.as_str());
            proof {
                assert(old(out)@ + seq![0u8] + spec_enc_string(v.path@) =~= old(out)@ + (seq![0u8]
                    + spec_enc_string(v.path@)));
            }
        },
        Action::OpenFile(v) => {
            enc_byte(out, 1);
            enc_string(out, v.path.as_str());
            proof {
                assert(old(out)@ + seq![1u8] + spec_enc_string(v.path@) =~= old(out)@ + (seq![1u8]
                    + spec_enc_string(v.path@)));
            }
        },
        Action::OpenURL(v) => {
            enc_byte(out, 2);
            enc_string(out, v.url.as_str());
            proof {
                assert(old(out)@ + seq![2u8] + spec_enc_string(v.url@) =~= old(out)@ + (seq![2u8]
                    + spec_enc_string(v.url@)));
            }
        },
        Action::CopyText(v) => {
            enc_byte(out, 3);
            enc_string(out, v.text.as_str());
            proof {
                assert(old(out)@ + seq![3u8] + spec_enc_string(v.text@) =~= old(out)@ + (seq![3u8]
                    + spec_enc_string(v.text@)));
            }
        },
        Action::CopyImage(v) => {
            enc_byte(out, 4);
            enc_string(out, v.path.as_str());
            proof {
                assert(old(out)@ + seq![4u8] + spec_enc_string(v.path@) =~= old(out)@ + (seq![4u8]
                    + spec_enc_string(v.path@)));
            }
        },
        Action::ShowResults(v) => {
            enc_byte(out, 5);
            let n = v.results.len();
            enc_u64(out, n as u64);
            let mut i: usize = 0;
            proof {
                assert(v.results@.take(0) =~= Seq::<TUIResult>::empty());
                assert(results_model(Seq::<TUIResult>::empty()) =~= Seq::<ResultModel>::empty());
                assert(out@ =~= old(out)@ + seq![5u8] + spec_enc_u64(n as u64)
                    + spec_enc_result_seq(results_model(v.results@.take(0))));
            }
            while i < n
                invariant
                    *a == Action::ShowResults(*v),
                    n == v.results@.len(),
                    i <= n,
                    out@ == old(out)@ + seq![5u8] + spec_enc_u64(n as u64) + spec_enc_result_seq(
                        results_model(v.results@.take(i as int)),
                    ),
                decreases n - i,
            {
                proof {
                    assert(decreases_to!(*a => v.results@[i as int])) by {
                        assert(a->ShowResults_0 == *v);
                        assert(decreases_to!(*a => a->ShowResults_0));
                        assert(decreases_to!(*v => v.results));
                        assert(decreases_to!(v.results => v.results@));
                        assert(decreases_to!(v.results@ => v.results@[i as int]));
                    }
                }
                enc_result(out, &v.results[i]);
                proof {
                    lemma_results_model(v.results@.take(i as int));
                    lemma_results_model(v.results@.take(i + 1));
                    assert(results_model(v.results@.take(i + 1)) =~= results_model(
                        v.results@.take(i as int),
                    ).push(result_model(v.results@[i as int])));
                    lemma_enc_result_seq_snoc(
                        results_model(v.results@.take(i as int)),
                        result_model(v.results@[i as int]),
                    );
                    assert(out@ =~= old(out)@ + seq![5u8] + spec_enc_u64(n as u64)
                        + spec_enc_result_seq(results_model(v.results@.take(i + 1))));
                }
                i += 1;
            }
            proof {
                assert(v.results@.take(n as int) =~= v.results@);
                lemma_results_model(v.results@);
                assert(out@ =~= old(out)@ + (seq![5u8] + (spec_enc_u64(n as u64)
                    + spec_enc_result_seq(results_model(v.results@)))));
            }
        },
        Action::OpenSettings => {
            enc_byte(out, 6);
        },
        Action::Session(s) => {
            enc_byte(out, 7);
            enc_session(out, s);
            proof {
                assert(old(out)@ + seq![7u8] + spec_enc_session(*s) =~= old(out)@ + (seq![7u8]
                    + spec_enc_session(*s)));
            }
        },
        Action::Bookmark(b) => {
            enc_byte(out, 8);
            enc_bookmark(out, b);
            proof {
                assert(old(out)@ + seq![8u8] + spec_enc_bookmark(bookmark_model(*b)) =~= old(out)@
                    + (seq![8u8] + spec_enc_bookmark(bookmark_model(*b))));
            }
        },
    }
}

fn enc_result(out: &mut Vec<u8>, r: &TUIResult)
    ensures
        final(out)@ == old(out)@ + spec_enc_result(result_model(*r)),
    decreases *r,
{
    enc_opt_string(out, &r.icon_path);
    enc_string(out, r.text.as_str());
    enc_opt_string(out, &r.secondary_text);
    enc_opt_action(out, &r.action);
    enc_string(out, r.info.as_str());
    proof {
        let m = result_model(*r);
        assert(old(out)@ + spec_enc_opt_string(m.icon_path) + spec_enc_string(m.text)
            + spec_enc_opt_string(m.secondary_text) + spec_enc_opt_action(m.action)
            + spec_enc_string(m.info) =~= old(out)@ + spec_enc_result(m));
    }
}

/// The discriminant byte of a bookmark's encoding.
pub open spec fn spec_bookmark_tag(b: BookmarkModel) -> u8 {
    match b {
        BookmarkModel::Add { .. } => 0u8,
        BookmarkModel::Remove { .. } => 1u8,
    }
}

/// Every bookmark encoding starts with its discriminant byte.
pub proof fn lemma_enc_bookmark_head(b: BookmarkModel)
    ensures
        spec_enc_bookmark(b).len() >= 1,
        spec_enc_bookmark(b)[0] == spec_bookmark_tag(b),
        spec_bookmark_tag(b) <= 1,
{
}

/// Reads an optional string: a presence byte, then the string.
fn dec_opt_string(data: &[u8], pos: usize) -> (r: Result<(Option<String>, usize), DecodeError>)
    requires
        pos <= data@.len(),
    ensures
        r matches Ok(op) ==> pos < op.1 <= data@.len() && data@.subrange(pos as int, op.1 as int)
            == spec_enc_opt_string(op.0.deep_view()),
        forall|o: Option<Seq<char>>, q: int|
            #![trigger spec_enc_opt_string(o), data@.subrange(pos as int, q)]
            pos <= q <= data@.len() && data@.subrange(pos as int, q) == spec_enc_opt_string(o)
                ==> (r matches Ok(op) && op.0.deep_view() == o && op.1 == q),
{
    match dec_byte(data, pos) {
        Err(e) => {
            proof {
                assert forall|o: Option<Seq<char>>, q: int|
                    pos <= q <= data@.len() && #[trigger] data@.subrange(pos as int, q)
                        == #[trigger] spec_enc_opt_string(o) implies false by {
                    lemma_enc_opt_string_len(o);
                }
            }
            Err(e)
        },
        Ok((flag, p1)) => {
            if flag == 0 {
                proof {
                    assert(data@.subrange(pos as int, p1 as int) =~= seq![0u8]);
                    assert forall|o: Option<Seq<char>>, q: int|
                        pos <= q <= data@.len() && #[trigger] data@.subrange(pos as int, q)
                            == #[trigger] spec_enc_opt_string(o) implies o is None && q == p1 by {
                        lemma_enc_opt_string_len(o);
                        assert(data@.subrange(pos as int, q)[0] == data@[pos as int]);
                        assert(o is None);
                        assert(spec_enc_opt_string(o).len() == 1);
                    }
                }
                Ok((None, p1))
            } else if flag == 1 {
                match dec_string(data, p1) {
                    Err(e) => {
                        proof {
                            assert forall|o: Option<Seq<char>>, q: int|
                                pos <= q <= data@.len() && #[trigger] data@.subrange(pos as int, q)
                                    == #[trigger] spec_enc_opt_string(o) implies false by {
                                lemma_enc_opt_string_len(o);
                                assert(data@.subrange(pos as int, q)[0] == data@[pos as int]);
                                match o {
                                    Some(cs) => {
                                        lemma_split(
                                            data@,
                                            pos as int,
                                            q,
                                            seq![1u8],
                                            spec_enc_string(cs),
                                        );
                                        assert(data@.subrange(p1 as int, q) == spec_enc_string(
                                            cs,
                                        ));
                                    },
                                    None => {},
                                }
                            }
                        }
                        Err(e)
                    },
                    Ok((s, p2)) => {
                        proof {
                            assert(data@.subrange(pos as int, p1 as int) =~= seq![1u8]);
                            lemma_join(data@, pos as int, p1 as int, p2 as int);
                            assert(data@.subrange(pos as int, p2 as int) == spec_enc_opt_string(
                                Some(s).deep_view(),
                            ));
                            assert forall|o: Option<Seq<char>>, q: int|
                                pos <= q <= data@.len() && #[trigger] data@.subrange(pos as int, q)
                                    == #[trigger] spec_enc_opt_string(o) implies Some(
                                s,
                            ).deep_view() == o && p2 == q by {
                                lemma_enc_opt_string_len(o);
                                assert(data@.subrange(pos as int, q)[0] == data@[pos as int]);
                                match o {
                                    Some(cs) => {
                                        lemma_split(
                                            data@,
                                            pos as int,
                                            q,
                                            seq![1u8],
                                            spec_enc_string(cs),
                                        );
                                        assert(data@.subrange(p1 as int, q) == spec_enc_string(
                                            cs,
                                        ));
                                    },
                                    None => {},
                                }
                            }
                        }
                        Ok((Some(s), p2))
                    },
                }
            } else {
                proof {
                    assert forall|o: Option<Seq<char>>, q: int|
                        pos <= q <= data@.len() && #[trigger] data@.subrange(pos as int, q)
                            == #[trigger] spec_enc_opt_string(o) implies false by {
                        lemma_enc_opt_string_len(o);
                        assert(data@.subrange(pos as int, q)[0] == data@[pos as int]);
                    }
                }
                Err(DecodeError)
            }
        },
    }
}

/// Reads a session command: one discriminant byte.
fn dec_session(data: &[u8], pos: usize) -> (r: Result<(Session, usize), DecodeError>)
    requires
        pos <= data@.len(),
    ensures
        r matches Ok(sp) ==> pos < sp.1 <= data@.len() && data@.subrange(pos as int, sp.1 as int)
            == spec_enc_session(sp.0),
        forall|sm: Session, q: int|
            #![trigger spec_enc_session(sm), data@.subrange(pos as int, q)]
            pos <= q <= data@.len() && data@.subrange(pos as int, q) == spec_enc_session(sm) ==> (
            r matches Ok(sp) && sp.0 == sm && sp.1 == q),
{
    match dec_byte(data, pos) {
        Err(e) => {
            proof {
                assert forall|sm: Session, q: int|
                    pos <= q <= data@.len() && #[trigger] data@.subrange(pos as int, q)
                        == #[trigger] spec_enc_session(sm) implies false by {
                    assert(spec_enc_session(sm).len() == 1);
                }
            }
            Err(e)
        },
        Ok((t, p1)) => {
            let out: Result<(Session, usize), DecodeError> = if t == 0 {
                Ok((Session::Shutdown, p1))
            } else if t == 1 {
                Ok((Session::Restart, p1))
            } else if t == 2 {
                Ok((Session::Suspend, p1))
            } else if t == 3 {
                Ok((Session::Logout, p1))
            } else {
                Err(DecodeError)
            };
            proof {
                if t <= 3 {
                    let sv = out->Ok_0.0;
                    assert(spec_session_tag(sv) == t);
                    assert(data@.subrange(pos as int, p1 as int) =~= seq![t]);
                }
                assert forall|sm: Session, q: int|
                    pos <= q <= data@.len() && #[trigger] data@.subrange(pos as int, q)
                        == #[trigger] spec_enc_session(sm) implies out matches Ok(sp) && sp.0 == sm
                    && sp.1 == q by {
                    assert(spec_enc_session(sm).len() == 1);
                    assert(data@.subrange(pos as int, q)[0] == data@[pos as int]);
                    assert(spec_session_tag(sm) == t);
                }
            }
            out
        },
    }
}

/// Reads a bookmark command: a discriminant byte, then its fields.
fn dec_bookmark(data: &[u8], pos: usize) -> (r: Result<(Bookmark, usize), DecodeError>)
    requires
        pos <= data@.len(),
    ensures
        r matches Ok(bp) ==> pos < bp.1 <= data@.len() && data@.subrange(pos as int, bp.1 as int)
            == spec_enc_bookmark(bookmark_model(bp.0)),
        forall|bm: BookmarkModel, q: int|
            #![trigger spec_enc_bookmark(bm), data@.subrange(pos as int, q)]
            pos <= q <= data@.len() && data@.subrange(pos as int, q) == spec_enc_bookmark(bm) ==> (
            r matches Ok(bp) && bookmark_model(bp.0) == bm && bp.1 == q),
{
    proof {
        lemma_auto_spec_u64_to_from_le_bytes();
    }
    match dec_byte(data, pos) {
        Err(e) => {
            proof {
                assert forall|bm: BookmarkModel, q: int|
                    pos <= q <= data@.len() && #[trigger] data@.subrange(pos as int, q)
                        == #[trigger] spec_enc_bookmark(bm) implies false by {
                    lemma_enc_bookmark_head(bm);
                }
            }
            Err(e)
        },
        Ok((t, p1)) => {
            if t == 0 {
                match dec_string(data, p1) {
                    Err(e) => {
                        proof {
                            assert forall|bm: BookmarkModel, q: int|
                                pos <= q <= data@.len() && #[trigger] data@.subrange(pos as int, q)
                                    == #[trigger] spec_enc_bookmark(bm) implies false by {
                                lemma_enc_bookmark_head(bm);
                                assert(data@.subrange(pos as int, q)[0] == data@[pos as int]);
                                match bm {
                                    BookmarkModel::Add { name, url } => {
                                        lemma_split(
                                            data@,
                                            pos as int,
                                            q,
                                            seq![0u8],
                                            spec_enc_string(name) + spec_enc_string(url),
                                        );
                                        lemma_split(
                                            data@,
                                            p1 as int,
                                            q,
                                            spec_enc_string(name),
                                            spec_enc_string(url),
                                        );
                                    },
                                    BookmarkModel::Remove { .. } => {},
                                }
                            }
                        }
                        Err(e)
                    },
                    Ok((name, p2)) => {
                        match dec_string(data, p2) {
                            Err(e) => {
                                proof {
                                    assert forall|bm: BookmarkModel, q: int|
                                        pos <= q <= data@.len() && #[trigger] data@.subrange(
                                            pos as int,
                                            q,
                                        ) == #[trigger] spec_enc_bookmark(bm) implies false by {
                                        lemma_enc_bookmark_head(bm);
                                        assert(data@.subrange(pos as int, q)[0] == data@[
                                            pos as int]);
                                        match bm {
                                            BookmarkModel::Add { name: nm, url: ur } => {
                                                lemma_split(
                                                    data@,
                                                    pos as int,
                                                    q,
                                                    seq![0u8],
                                                    spec_enc_string(nm) + spec_enc_string(ur),
                                                );
                                                lemma_split(
                                                    data@,
                                                    p1 as int,
                                                    q,
                                                    spec_enc_string(nm),
                                                    spec_enc_string(ur),
                                                );
                                            },
                                            BookmarkModel::Remove { .. } => {},
                                        }
                                    }
                                }
                                Err(e)
                            },
                            Ok((url, p3)) => {
                                let bk = Bookmark::Add(
                                    AddBookmark { name, url },
                                );
                                proof {
                                    assert(data@.subrange(pos as int, p1 as int) =~= seq![0u8]);
                                    lemma_join(data@, p1 as int, p2 as int, p3 as int);
                                    lemma_join(data@, pos as int, p1 as int, p3 as int);
                                    assert forall|bm: BookmarkModel, q: int|
                                        pos <= q <= data@.len() && #[trigger] data@.subrange(
                                            pos as int,
                                            q,
                                        ) == #[trigger] spec_enc_bookmark(bm) implies (
                                    bookmark_model(bk) == bm && p3 == q) by {
                                        lemma_enc_bookmark_head(bm);
                                        assert(data@.subrange(pos as int, q)[0] == data@[
                                            pos as int]);
                                        match bm {
                                            BookmarkModel::Add { name: nm, url: ur } => {
                                                lemma_split(
                                                    data@,
                                                    pos as int,
                                                    q,
                                                    seq![0u8],
                                                    spec_enc_string(nm) + spec_enc_string(ur),
                                                );
                                                lemma_split(
                                                    data@,
                                                    p1 as int,
                                                    q,
                                                    spec_enc_string(nm),
                                                    spec_enc_string(ur),
                                                );
                                            },
                                            BookmarkModel::Remove { .. } => {},
                                        }
                                    }
                                }
                                Ok((bk, p3))
                            },
                        }
                    },
                }
            } else if t == 1 {
                match dec_u64(data, p1) {
                    Err(e) => {
                        proof {
                            assert forall|bm: BookmarkModel, q: int|
                                pos <= q <= data@.len() && #[trigger] data@.subrange(pos as int, q)
                                    == #[trigger] spec_enc_bookmark(bm) implies false by {
                                lemma_enc_bookmark_head(bm);
                                assert(data@.subrange(pos as int, q)[0] == data@[pos as int]);
                                match bm {
                                    BookmarkModel::Remove { id } => {
                                        lemma_split(
                                            data@,
                                            pos as int,
                                            q,
                                            seq![1u8],
                                            spec_enc_u64(id as u64),
                                        );
                                    },
                                    BookmarkModel::Add { .. } => {},
                                }
                            }
                        }
                        Err(e)
                    },
                    Ok((x, p2)) => {
                        if x > usize::MAX as u64 {
                            proof {
                                assert forall|bm: BookmarkModel, q: int|
                                    pos <= q <= data@.len() && #[trigger] data@.subrange(
                                        pos as int,
                                        q,
                                    ) == #[trigger] spec_enc_bookmark(bm) implies false by {
                                    lemma_enc_bookmark_head(bm);
                                    assert(data@.subrange(pos as int, q)[0] == data@[pos as int]);
                                    match bm {
                                        BookmarkModel::Remove { id } => {
                                            lemma_split(
                                                data@,
                                                pos as int,
                                                q,
                                                seq![1u8],
                                                spec_enc_u64(id as u64),
                                            );
                                            assert(x == id as u64);
                                        },
                                        BookmarkModel::Add { .. } => {},
                                    }
                                }
                            }
                            Err(DecodeError)
                        } else {
                            let bk = Bookmark::Remove(
                                RemoveBookmark { id: x as usize },
                            );
                            proof {
                                assert(data@.subrange(pos as int, p1 as int) =~= seq![1u8]);
                                lemma_join(data@, pos as int, p1 as int, p2 as int);
                                assert((x as usize) as u64 == x);
                                assert forall|bm: BookmarkModel, q: int|
                                    pos <= q <= data@.len() && #[trigger] data@.subrange(
                                        pos as int,
                                        q,
                                    ) == #[trigger] spec_enc_bookmark(bm) implies (bookmark_model(
                                    bk,
                                ) == bm && p2 == q) by {
                                    lemma_enc_bookmark_head(bm);
                                    assert(data@.subrange(pos as int, q)[0] == data@[pos as int]);
                                    match bm {
                                        BookmarkModel::Remove { id } => {
                                            lemma_split(
                                                data@,
                                                pos as int,
                                                q,
                                                seq![1u8],
                                                spec_enc_u64(id as u64),
                                            );
                                            assert(x == id as u64);
                                        },
                                        BookmarkModel::Add { .. } => {},
                                    }
                                }
                            }
                            Ok((bk, p2))
                        }
                    },
                }
            } else {
                proof {
                    assert forall|bm: BookmarkModel, q: int|
                        pos <= q <= data@.len() && #[trigger] data@.subrange(pos as int, q)
                            == #[trigger] spec_enc_bookmark(bm) implies false by {
                        lemma_enc_bookmark_head(bm);
                        assert(data@.subrange(pos as int, q)[0] == data@[pos as int]);
                    }
                }
                Err(DecodeError)
            }
        },
    }
}

/// The five fields of an encoded result, located inside a byte range.
pub proof fn lemma_enc_result_split(data: Seq<u8>, pos: int, q: int, rm: ResultModel)
    requires
        0 <= pos <= q <= data.len(),
        data.subrange(pos, q) == spec_enc_result(rm),
    ensures
        ({
            let l1 = spec_enc_opt_string(rm.icon_path).len();
            let l2 = spec_enc_string(rm.text).len();
            let l3 = spec_enc_opt_string(rm.secondary_text).len();
            let l4 = spec_enc_opt_action(rm.action).len();
            let l5 = spec_enc_string(rm.info).len();
            &&& q == pos + l1 + l2 + l3 + l4 + l5
            &&& data.subrange(pos, pos + l1) == spec_enc_opt_string(rm.icon_path)
            &&& data.subrange(pos + l1, pos + l1 + l2) == spec_enc_string(rm.text)
            &&& data.subrange(pos + l1 + l2, pos + l1 + l2 + l3) == spec_enc_opt_string(
                rm.secondary_text,
            )
            &&& data.subrange(pos + l1 + l2 + l3, pos + l1 + l2 + l3 + l4) == spec_enc_opt_action(
                rm.action,
            )
            &&& data.subrange(pos + l1 + l2 + l3 + l4, q) == spec_enc_string(rm.info)
        }),
{
    let x1 = spec_enc_opt_string(rm.icon_path);
    let x2 = spec_enc_string(rm.text);
    let x3 = spec_enc_opt_string(rm.secondary_text);
    let x4 = spec_enc_opt_action(rm.action);
    let x5 = spec_enc_string(rm.info);
    lemma_split(data, pos, q, x1, x2 + (x3 + (x4 + x5)));
    lemma_split(data, pos + x1.len(), q, x2, x3 + (x4 + x5));
    lemma_split(data, pos + x1.len() + x2.len(), q, x3, x4 + x5);
    lemma_split(data, pos + x1.len() + x2.len() + x3.len(), q, x4, x5);
}

/// Reads one action: a discriminant byte, then the variant's fields.
fn dec_action(data: &[u8], pos: usize) -> (r: Result<(Action, usize), DecodeError>)
    requires
        pos <= data@.len(),
    ensures
        r matches Ok(ap) ==> pos < ap.1 <= data@.len() && data@.subrange(pos as int, ap.1 as int)
            == spec_enc_action(action_model(ap.0)),
        forall|am: ActionModel, q: int|
            #![trigger spec_enc_action(am), data@.subrange(pos as int, q)]
            pos <= q <= data@.len() && data@.subrange(pos as int, q) == spec_enc_action(am) ==> (
            r matches Ok(ap) && action_model(ap.0) == am && ap.1 == q),
    decreases data@.len() - pos,
{
    match dec_byte(data, pos) {
        Err(e) => {
            proof {
                assert forall|am: ActionModel, q: int|
                    pos <= q <= data@.len() && #[trigger] data@.subrange(pos as int, q)
                        == #[trigger] spec_enc_action(am) implies false by {
                    lemma_enc_action_head(am);
                }
            }
            Err(e)
        },
        Ok((t, p1)) => {
            if t <= 4 {
                match dec_string(data, p1) {
                    Err(e) => {
                        proof {
                            assert forall|am: ActionModel, q: int|
                                pos <= q <= data@.len() && #[trigger] data@.subrange(pos as int, q)
                                    == #[trigger] spec_enc_action(am) implies false by {
                                lemma_enc_action_head(am);
                                assert(data@.subrange(pos as int, q)[0] == data@[pos as int]);
                                match am {
                                    ActionModel::OpenApp { path } => {
                                        lemma_split(data@, pos as int, q, seq![0u8],
                                            spec_enc_string(path));
                                    },
                                    ActionModel::OpenFile { path } => {
                                        lemma_split(data@, pos as int, q, seq![1u8],
                                            spec_enc_string(path));
                                    },
                                    ActionModel::OpenURL { url } => {
                                        lemma_split(data@, pos as int, q, seq![2u8],
                                            spec_enc_string(url));
                                    },
                                    ActionModel::CopyText { text } => {
                                        lemma_split(data@, pos as int, q, seq![3u8],
                                            spec_enc_string(text));
                                    },
                                    ActionModel::CopyImage { path } => {
                                        lemma_split(data@, pos as int, q, seq![4u8],
                                            spec_enc_string(path));
                                    },
                                    _ => {},
                                }
                            }
                        }
                        Err(e)
                    },
                    Ok((sv, p2)) => {
                        let act = if t == 0 {
                            Action::OpenApp(OpenApp { path: sv })
                        } else if t == 1 {
                            Action::OpenFile(OpenFile { path: sv })
                        } else if t == 2 {
                            Action::OpenURL(OpenURL { url: sv })
                        } else if t == 3 {
                            Action::CopyText(CopyText { text: sv })
                        } else {
                            Action::CopyImage(CopyImage { path: sv })
                        };
                        proof {
                            assert(data@.subrange(pos as int, p1 as int) =~= seq![t]);
                            lemma_join(data@, pos as int, p1 as int, p2 as int);
                            assert(spec_action_tag(action_model(act)) == t);
                            assert(data@.subrange(pos as int, p2 as int) == spec_enc_action(
                                action_model(act),
                            ));
                            assert forall|am: ActionModel, q: int|
                                pos <= q <= data@.len() && #[trigger] data@.subrange(pos as int, q)
                                    == #[trigger] spec_enc_action(am) implies (action_model(act)
                                == am && p2 == q) by {
                                lemma_enc_action_head(am);
                                assert(data@.subrange(pos as int, q)[0] == data@[pos as int]);
                                match am {
                                    ActionModel::OpenApp { path } => {
                                        lemma_split(data@, pos as int, q, seq![0u8],
                                            spec_enc_string(path));
                                    },
                                    ActionModel::OpenFile { path } => {
                                        lemma_split(data@, pos as int, q, seq![1u8],
                                            spec_enc_string(path));
                                    },
                                    ActionModel::OpenURL { url } => {
                                        lemma_split(data@, pos as int, q, seq![2u8],
                                            spec_enc_string(url));
                                    },
                                    ActionModel::CopyText { text } => {
                                        lemma_split(data@, pos as int, q, seq![3u8],
                                            spec_enc_string(text));
                                    },
                                    ActionModel::CopyImage { path } => {
                                        lemma_split(data@, pos as int, q, seq![4u8],
                                            spec_enc_string(path));
                                    },
                                    _ => {},
                                }
                            }
                        }
                        Ok((act, p2))
                    },
                }
            } else if t == 5 {
                match dec_result_list(data, p1) {
                    Err(e) => {
                        proof {
                            assert forall|am: ActionModel, q: int|
                                pos <= q <= data@.len() && #[trigger] data@.subrange(pos as int, q)
                                    == #[trigger] spec_enc_action(am) implies false by {
                                lemma_enc_action_head(am);
                                assert(data@.subrange(pos as int, q)[0] == data@[pos as int]);
                                match am {
                                    ActionModel::ShowResults { results } => {
                                        lemma_split(data@, pos as int, q, seq![5u8],
                                            spec_enc_results_msg(results));
                                    },
                                    _ => {},
                                }
                            }
                        }
                        Err(e)
                    },
                    Ok((items, p2)) => {
                        let act = Action::ShowResults(ShowResults { results: items });
                        proof {
                            assert(data@.subrange(pos as int, p1 as int) =~= seq![5u8]);
                            lemma_join(data@, pos as int, p1 as int, p2 as int);
                            assert(data@.subrange(pos as int, p2 as int) == spec_enc_action(
                                action_model(act),
                            ));
                            assert forall|am: ActionModel, q: int|
                                pos <= q <= data@.len() && #[trigger] data@.subrange(pos as int, q)
                                    == #[trigger] spec_enc_action(am) implies (action_model(act)
                                == am && p2 == q) by {
                                lemma_enc_action_head(am);
                                assert(data@.subrange(pos as int, q)[0] == data@[pos as int]);
                                match am {
                                    ActionModel::ShowResults { results } => {
                                        lemma_split(data@, pos as int, q, seq![5u8],
                                            spec_enc_results_msg(results));
                                    },
                                    _ => {},
                                }
                            }
                        }
                        Ok((act, p2))
                    },
                }
            } else if t == 6 {
                let act = Action::OpenSettings;
                proof {
                    assert(data@.subrange(pos as int, p1 as int) =~= seq![6u8]);
                    assert(data@.subrange(pos as int, p1 as int) == spec_enc_action(
                        action_model(act),
                    ));
                    assert forall|am: ActionModel, q: int|
                        pos <= q <= data@.len() && #[trigger] data@.subrange(pos as int, q)
                            == #[trigger] spec_enc_action(am) implies (action_model(act) == am
                        && p1 == q) by {
                        lemma_enc_action_head(am);
                        assert(data@.subrange(pos as int, q)[0] == data@[pos as int]);
                        assert(am is OpenSettings);
                        assert(spec_enc_action(am).len() == 1);
                    }
                }
                Ok((act, p1))
            } else if t == 7 {
                match dec_session(data, p1) {
                    Err(e) => {
                        proof {
                            assert forall|am: ActionModel, q: int|
                                pos <= q <= data@.len() && #[trigger] data@.subrange(pos as int, q)
                                    == #[trigger] spec_enc_action(am) implies false by {
                                lemma_enc_action_head(am);
                                assert(data@.subrange(pos as int, q)[0] == data@[pos as int]);
                                match am {
                                    ActionModel::Session { session } => {
                                        lemma_split(data@, pos as int, q, seq![7u8],
                                            spec_enc_session(session));
                                    },
                                    _ => {},
                                }
                            }
                        }
                        Err(e)
                    },
                    Ok((sv, p2)) => {
                        let act = Action::Session(sv);
                        proof {
                            assert(data@.subrange(pos as int, p1 as int) =~= seq![7u8]);
                            lemma_join(data@, pos as int, p1 as int, p2 as int);
                            assert(data@.subrange(pos as int, p2 as int) == spec_enc_action(
                                action_model(act),
                            ));
                            assert forall|am: ActionModel, q: int|
                                pos <= q <= data@.len() && #[trigger] data@.subrange(pos as int, q)
                                    == #[trigger] spec_enc_action(am) implies (action_model(act)
                                == am && p2 == q) by {
                                lemma_enc_action_head(am);
                                assert(data@.subrange(pos as int, q)[0] == data@[pos as int]);
                                match am {
                                    ActionModel::Session { session } => {
                                        lemma_split(data@, pos as int, q, seq![7u8],
                                            spec_enc_session(session));
                                    },
                                    _ => {},
                                }
                            }
                        }
                        Ok((act, p2))
                    },
                }
            } else if t == 8 {
                match dec_bookmark(data, p1) {
                    Err(e) => {
                        proof {
                            assert forall|am: ActionModel, q: int|
                                pos <= q <= data@.len() && #[trigger] data@.subrange(pos as int, q)
                                    == #[trigger] spec_enc_action(am) implies false by {
                                lemma_enc_action_head(am);
                                assert(data@.subrange(pos as int, q)[0] == data@[pos as int]);
                                match am {
                                    ActionModel::Bookmark { bookmark } => {
                                        lemma_split(data@, pos as int, q, seq![8u8],
                                            spec_enc_bookmark(bookmark));
                                    },
                                    _ => {},
                                }
                            }
                        }
                        Err(e)
                    },
                    Ok((bv, p2)) => {
                        let act = Action::Bookmark(bv);
                        proof {
                            assert(data@.subrange(pos as int, p1 as int) =~= seq![8u8]);
                            lemma_join(data@, pos as int, p1 as int, p2 as int);
                            assert(data@.subrange(pos as int, p2 as int) == spec_enc_action(
                                action_model(act),
                            ));
                            assert forall|am: ActionModel, q: int|
                                pos <= q <= data@.len() && #[trigger] data@.subrange(pos as int, q)
                                    == #[trigger] spec_enc_action(am) implies (action_model(act)
                                == am && p2 == q) by {
                                lemma_enc_action_head(am);
                                assert(data@.subrange(pos as int, q)[0] == data@[pos as int]);
                                match am {
                                    ActionModel::Bookmark { bookmark } => {
                                        lemma_split(data@, pos as int, q, seq![8u8],
                                            spec_enc_bookmark(bookmark));
                                    },
                                    _ => {},
                                }
                            }
                        }
                        Ok((act, p2))
                    },
                }
            } else {
                proof {
                    assert forall|am: ActionModel, q: int|
                        pos <= q <= data@.len() && #[trigger] data@.subrange(pos as int, q)
                            == #[trigger] spec_enc_action(am) implies false by {
                        lemma_enc_action_head(am);
                        assert(data@.subrange(pos as int, q)[0] == data@[pos as int]);
                    }
                }
                Err(DecodeError)
            }
        },
    }
}

/// Reads an optional action: a presence byte, then the action.
fn dec_opt_action(data: &[u8], pos: usize) -> (r: Result<(Option<Action>, usize), DecodeError>)
    requires
        pos <= data@.len(),
    ensures
        r matches Ok(op) ==> pos < op.1 <= data@.len() && data@.subrange(pos as int, op.1 as int)
            == spec_enc_opt_action(opt_action_model(op.0)),
        forall|o: Option<ActionModel>, q: int|
            #![trigger spec_enc_opt_action(o), data@.subrange(pos as int, q)]
            pos <= q <= data@.len() && data@.subrange(pos as int, q) == spec_enc_opt_action(o)
                ==> (r matches Ok(op) && opt_action_model(op.0) == o && op.1 == q),
    decreases data@.len() - pos,
{
    match dec_byte(data, pos) {
        Err(e) => {
            proof {
                assert forall|o: Option<ActionModel>, q: int|
                    pos <= q <= data@.len() && #[trigger] data@.subrange(pos as int, q)
                        == #[trigger] spec_enc_opt_action(o) implies false by {
                    lemma_enc_opt_action_len(o);
                }
            }
            Err(e)
        },
        Ok((flag, p1)) => {
            if flag == 0 {
                proof {
                    assert(data@.subrange(pos as int, p1 as int) =~= seq![0u8]);
                    assert forall|o: Option<ActionModel>, q: int|
                        pos <= q <= data@.len() && #[trigger] data@.subrange(pos as int, q)
                            == #[trigger] spec_enc_opt_action(o) implies o is None && q == p1 by {
                        lemma_enc_opt_action_len(o);
                        assert(data@.subrange(pos as int, q)[0] == data@[pos as int]);
                        assert(o is None);
                        assert(spec_enc_opt_action(o).len() == 1);
                    }
                }
                Ok((None, p1))
            } else if flag == 1 {
                match dec_action(data, p1) {
                    Err(e) => {
                        proof {
                            assert forall|o: Option<ActionModel>, q: int|
                                pos <= q <= data@.len() && #[trigger] data@.subrange(pos as int, q)
                                    == #[trigger] spec_enc_opt_action(o) implies false by {
                                lemma_enc_opt_action_len(o);
                                assert(data@.subrange(pos as int, q)[0] == data@[pos as int]);
                                match o {
                                    Some(am) => {
                                        lemma_split(data@, pos as int, q, seq![1u8],
                                            spec_enc_action(am));
                                    },
                                    None => {},
                                }
                            }
                        }
                        Err(e)
                    },
                    Ok((a, p2)) => {
                        proof {
                            assert(data@.subrange(pos as int, p1 as int) =~= seq![1u8]);
                            lemma_join(data@, pos as int, p1 as int, p2 as int);
                            assert(data@.subrange(pos as int, p2 as int) == spec_enc_opt_action(
                                opt_action_model(Some(a)),
                            ));
                            assert forall|o: Option<ActionModel>, q: int|
                                pos <= q <= data@.len() && #[trigger] data@.subrange(pos as int, q)
                                    == #[trigger] spec_enc_opt_action(o) implies (opt_action_model(
                                Some(a),
                            ) == o && p2 == q) by {
                                lemma_enc_opt_action_len(o);
                                assert(data@.subrange(pos as int, q)[0] == data@[pos as int]);
                                match o {
                                    Some(am) => {
                                        lemma_split(data@, pos as int, q, seq![1u8],
                                            spec_enc_action(am));
                                    },
                                    None => {},
                                }
                            }
                        }
                        Ok((Some(a), p2))
                    },
                }
            } else {
                proof {
                    assert forall|o: Option<ActionModel>, q: int|
                        pos <= q <= data@.len() && #[trigger] data@.subrange(pos as int, q)
                            == #[trigger] spec_enc_opt_action(o) implies false by {
                        lemma_enc_opt_action_len(o);
                        assert(data@.subrange(pos as int, q)[0] == data@[pos as int]);
                    }
                }
                Err(DecodeError)
            }
        },
    }
}

/// Reads one result entry: its five fields in declaration order.
fn dec_result(data: &[u8], pos: usize) -> (r: Result<(TUIResult, usize), DecodeError>)
    requires
        pos <= data@.len(),
    ensures
        r matches Ok(rp) ==> pos < rp.1 <= data@.len() && data@.subrange(pos as int, rp.1 as int)
            == spec_enc_result(result_model(rp.0)),
        forall|rm: ResultModel, q: int|
            #![trigger spec_enc_result(rm), data@.subrange(pos as int, q)]
            pos <= q <= data@.len() && data@.subrange(pos as int, q) == spec_enc_result(rm) ==> (
            r matches Ok(rp) && result_model(rp.0) == rm && rp.1 == q),
    decreases data@.len() - pos,
{
    let icon = match dec_opt_string(data, pos) {
        Err(e) => {
            proof {
                assert forall|rm: ResultModel, q: int|
                    pos <= q <= data@.len() && #[trigger] data@.subrange(pos as int, q)
                        == #[trigger] spec_enc_result(rm) implies false by {
                    lemma_enc_result_split(data@, pos as int, q, rm);
                }
            }
            return Err(e);
        },
        Ok(v) => v,
    };
    let pa = icon.1;
    let text = match dec_string(data, pa) {
        Err(e) => {
            proof {
                assert forall|rm: ResultModel, q: int|
                    pos <= q <= data@.len() && #[trigger] data@.subrange(pos as int, q)
                        == #[trigger] spec_enc_result(rm) implies false by {
                    lemma_enc_result_split(data@, pos as int, q, rm);
                }
            }
            return Err(e);
        },
        Ok(v) => v,
    };
    let pb = text.1;
    let sec = match dec_opt_string(data, pb) {
        Err(e) => {
            proof {
                assert forall|rm: ResultModel, q: int|
                    pos <= q <= data@.len() && #[trigger] data@.subrange(pos as int, q)
                        == #[trigger] spec_enc_result(rm) implies false by {
                    lemma_enc_result_split(data@, pos as int, q, rm);
                }
            }
            return Err(e);
        },
        Ok(v) => v,
    };
    let pc = sec.1;
    let act = match dec_opt_action(data, pc) {
        Err(e) => {
            proof {
                assert forall|rm: ResultModel, q: int|
                    pos <= q <= data@.len() && #[trigger] data@.subrange(pos as int, q)
                        == #[trigger] spec_enc_result(rm) implies false by {
                    lemma_enc_result_split(data@, pos as int, q, rm);
                }
            }
            return Err(e);
        },
        Ok(v) => v,
    };
    let pd = act.1;
    let info = match dec_string(data, pd) {
        Err(e) => {
            proof {
                assert forall|rm: ResultModel, q: int|
                    pos <= q <= data@.len() && #[trigger] data@.subrange(pos as int, q)
                        == #[trigger] spec_enc_result(rm) implies false by {
                    lemma_enc_result_split(data@, pos as int, q, rm);
                }
            }
            return Err(e);
        },
        Ok(v) => v,
    };
    let pe = info.1;
    let entry = TUIResult {
        icon_path: icon.0,
        text: text.0,
        secondary_text: sec.0,
        action: act.0,
        info: info.0,
    };
    proof {
        lemma_join(data@, pos as int, pa as int, pb as int);
        lemma_join(data@, pos as int, pb as int, pc as int);
        lemma_join(data@, pos as int, pc as int, pd as int);
        lemma_join(data@, pos as int, pd as int, pe as int);
        assert(data@.subrange(pos as int, pe as int) == spec_enc_result(result_model(entry))) by {
            assert(data@.subrange(pos as int, pe as int) =~= spec_enc_opt_string(
                result_model(entry).icon_path,
            ) + (spec_enc_string(result_model(entry).text) + (spec_enc_opt_string(
                result_model(entry).secondary_text,
            ) + (spec_enc_opt_action(result_model(entry).action) + spec_enc_string(
                result_model(entry).info,
            )))));
        }
        assert forall|rm: ResultModel, q: int|
            pos <= q <= data@.len() && #[trigger] data@.subrange(pos as int, q)
                == #[trigger] spec_enc_result(rm) implies (result_model(entry) == rm && pe == q)
            by {
            lemma_enc_result_split(data@, pos as int, q, rm);
        }
    }
    Ok((entry, pe))
}

/// Reads a length-prefixed sequence of results.
fn dec_result_list(data: &[u8], pos: usize) -> (r: Result<(Vec<TUIResult>, usize), DecodeError>)
    requires
        pos <= data@.len(),
    ensures
        r matches Ok(vp) ==> pos <= vp.1 <= data@.len() && data@.subrange(pos as int, vp.1 as int)
            == spec_enc_results_msg(results_model(vp.0@)),
        forall|m: Seq<ResultModel>, q: int|
            #![trigger spec_enc_results_msg(m), data@.subrange(pos as int, q)]
            pos <= q <= data@.len() && data@.subrange(pos as int, q) == spec_enc_results_msg(m)
                ==> (r matches Ok(vp) && results_model(vp.0@) == m && vp.1 == q),
    decreases data@.len() - pos,
{
    proof {
        lemma_auto_spec_u64_to_from_le_bytes();
    }
    let n_total = data.len();
    let cnt = match dec_u64(data, pos) {
        Err(e) => {
            proof {
                assert forall|m: Seq<ResultModel>, q: int|
                    pos <= q <= data@.len() && #[trigger] data@.subrange(pos as int, q)
                        == #[trigger] spec_enc_results_msg(m) implies false by {
                    lemma_split(data@, pos as int, q, spec_enc_u64(m.len() as u64),
                        spec_enc_result_seq(m));
                }
            }
            return Err(e);
        },
        Ok(v) => v,
    };
    let cnt64 = cnt.0;
    let p1 = cnt.1;
    if cnt64 > (n_total - p1) as u64 {
        proof {
            assert forall|m: Seq<ResultModel>, q: int|
                pos <= q <= data@.len() && #[trigger] data@.subrange(pos as int, q)
                    == #[trigger] spec_enc_results_msg(m) implies false by {
                lemma_split(data@, pos as int, q, spec_enc_u64(m.len() as u64),
                    spec_enc_result_seq(m));
                lemma_enc_result_seq_len(m);
                assert(m.len() as u64 == cnt64);
            }
        }
        return Err(DecodeError);
    }
    let n = cnt64 as usize;
    let mut out: Vec<TUIResult> = Vec::new();
    let mut p = p1;
    let mut i: usize = 0;
    proof {
        assert(results_model(out@) =~= Seq::<ResultModel>::empty());
        assert(data@.subrange(p1 as int, p1 as int) =~= spec_enc_result_seq(results_model(out@)));
        assert forall|m: Seq<ResultModel>, q: int|
            pos <= q <= data@.len() && #[trigger] data@.subrange(pos as int, q)
                == #[trigger] spec_enc_results_msg(m) implies m.len() == n && results_model(out@)
            == m.take(0) && p1 == p1 + spec_enc_result_seq(m.take(0)).len() by {
            lemma_split(data@, pos as int, q, spec_enc_u64(m.len() as u64),
                spec_enc_result_seq(m));
            lemma_enc_result_seq_len(m);
            assert(m.len() as u64 == cnt64);
            assert(m.take(0) =~= Seq::<ResultModel>::empty());
            assert(results_model(out@) =~= m.take(0));
            assert(spec_enc_result_seq(m.take(0)).len() == 0);
        }
    }
    while i < n
        invariant
            n_total == data@.len(),
            pos + 8 == p1,
            p1 <= p <= n_total,
            n == cnt64,
            data@.subrange(pos as int, p1 as int) == spec_enc_u64(cnt64),
            i <= n,
            out@.len() == i,
            data@.subrange(p1 as int, p as int) == spec_enc_result_seq(results_model(out@)),
            forall|m: Seq<ResultModel>, q: int|
                #![trigger spec_enc_results_msg(m), data@.subrange(pos as int, q)]
                pos <= q <= data@.len() && data@.subrange(pos as int, q) == spec_enc_results_msg(m)
                    ==> m.len() == n && results_model(out@) == m.take(i as int) && p == p1
                    + spec_enc_result_seq(m.take(i as int)).len(),
        decreases n - i,
    {
        let item = match dec_result(data, p) {
            Err(e) => {
                proof {
                    assert forall|m: Seq<ResultModel>, q: int|
                        pos <= q <= data@.len() && #[trigger] data@.subrange(pos as int, q)
                            == #[trigger] spec_enc_results_msg(m) implies false by {
                        lemma_list_step(data@, pos as int, q, m, i as int, p as int);
                    }
                }
                return Err(e);
            },
            Ok(v) => v,
        };
        let ghost out_pre = out@;
        out.push(item.0);
        proof {
            assert(out@ == out_pre.push(item.0));
            lemma_results_model(out_pre);
            lemma_results_model(out@);
            assert(results_model(out@) =~= results_model(out_pre).push(result_model(item.0)));
            lemma_enc_result_seq_snoc(results_model(out_pre), result_model(item.0));
            lemma_join(data@, p1 as int, p as int, item.1 as int);
            assert(data@.subrange(p1 as int, item.1 as int) == spec_enc_result_seq(
                results_model(out@),
            ));
            assert forall|m: Seq<ResultModel>, q: int|
                pos <= q <= data@.len() && #[trigger] data@.subrange(pos as int, q)
                    == #[trigger] spec_enc_results_msg(m) implies m.len() == n && results_model(
                out@,
            ) == m.take(i + 1) && item.1 == p1 + spec_enc_result_seq(m.take(i + 1)).len() by {
                lemma_list_step(data@, pos as int, q, m, i as int, p as int);
                assert(result_model(item.0) == m[i as int]);
                assert(m.take(i + 1) =~= m.take(i as int).push(m[i as int]));
                lemma_enc_result_seq_snoc(m.take(i as int), m[i as int]);
                assert(results_model(out@) =~= m.take(i + 1));
            }
        }
        p = item.1;
        i += 1;
    }
    proof {
        lemma_join(data@, pos as int, p1 as int, p as int);
        lemma_results_model(out@);
        assert(results_model(out@).len() as u64 == cnt64);
        assert(data@.subrange(pos as int, p as int) == spec_enc_results_msg(results_model(out@)));
        assert forall|m: Seq<ResultModel>, q: int|
            pos <= q <= data@.len() && #[trigger] data@.subrange(pos as int, q)
                == #[trigger] spec_enc_results_msg(m) implies (results_model(out@) == m && p == q)
            by {
            lemma_split(data@, pos as int, q, spec_enc_u64(m.len() as u64),
                spec_enc_result_seq(m));
            assert(m.take(n as int) =~= m);
        }
    }
    Ok((out, p))
}

/// Locates the `i`th element's encoding inside an encoded result list.
proof fn lemma_list_step(data: Seq<u8>, pos: int, q: int, m: Seq<ResultModel>, i: int, p: int)
    requires
        0 <= pos,
        pos + 8 <= p <= data.len(),
        pos <= q <= data.len(),
        data.subrange(pos, q) == spec_enc_results_msg(m),
        0 <= i < m.len(),
        p == pos + 8 + spec_enc_result_seq(m.take(i)).len(),
    ensures
        p + spec_enc_result(m[i]).len() <= q,
        data.subrange(p, p + spec_enc_result(m[i]).len()) == spec_enc_result(m[i]),
{
    lemma_auto_spec_u64_to_from_le_bytes();
    lemma_split(data, pos, q, spec_enc_u64(m.len() as u64), spec_enc_result_seq(m));
    assert(m =~= m.take(i) + m.skip(i));
    lemma_enc_result_seq_append(m.take(i), m.skip(i));
    lemma_split(data, pos + 8, q, spec_enc_result_seq(m.take(i)),
        spec_enc_result_seq(m.skip(i)));
    assert(m.skip(i)[0] == m[i]);
    assert(m.skip(i).subrange(1, m.skip(i).len() as int) =~= m.skip(i + 1));
    assert(spec_enc_result_seq(m.skip(i)) == spec_enc_result(m[i]) + spec_enc_result_seq(
        m.skip(i + 1),
    ));
    lemma_split(data, p, q, spec_enc_result(m[i]), spec_enc_result_seq(m.skip(i + 1)));
}

/// Decodes one whole response buffer.  Succeeds exactly when the buffer
/// is, in full, the encoding of one sequence of results, and then
/// returns that sequence; trailing bytes or any malformation fail.
pub fn decode_results(data: &[u8]) -> (r: Result<Vec<TUIResult>, DecodeError>)
    ensures
        r matches Ok(v) ==> data@ == spec_enc_results_msg(results_model(v@)),
        forall|m: Seq<ResultModel>| #[trigger] spec_enc_results_msg(m) == data@ ==> (
        r matches Ok(v) && results_model(v@) == m),
{
    let n = data.len();
    proof {
        assert(data@.subrange(0, n as int) =~= data@);
    }
    match dec_result_list(data, 0) {
        Err(e) => {
            proof {
                assert forall|m: Seq<ResultModel>| #[trigger] spec_enc_results_msg(m) == data@
                    implies false by {
                    assert(data@.subrange(0, n as int) == spec_enc_results_msg(m));
                }
            }
            Err(e)
        },
        Ok((v, p)) => {
            if p == n {
                proof {
                    assert(data@ == spec_enc_results_msg(results_model(v@)));
                }
                Ok(v)
            } else {
                proof {
                    assert forall|m: Seq<ResultModel>| #[trigger] spec_enc_results_msg(m) == data@
                        implies false by {
                        assert(data@.subrange(0, n as int) == spec_enc_results_msg(m));
                    }
                }
                Err(DecodeError)
            }
        },
    }
}

pub open spec fn spec_enc_strings(ss: Seq<Seq<char>>) -> Seq<u8>
    decreases ss.len(),
{
    if ss.len() == 0 {
        Seq::empty()
    } else {
        spec_enc_string(ss[0]) + spec_enc_strings(ss.subrange(1, ss.len() as int))
    }
}

/// A length-prefixed list of strings.
pub open spec fn spec_enc_strings_msg(ss: Seq<Seq<char>>) -> Seq<u8> {
    spec_enc_u64(ss.len() as u64) + spec_enc_strings(ss)
}

pub open spec fn spec_enc_opt_strings(o: Option<Seq<Seq<char>>>) -> Seq<u8> {
    match o {
        None => seq![0u8],
        Some(ss) => seq![1u8] + spec_enc_strings_msg(ss),
    }
}

/// The discriminant byte of a request's encoding.
pub open spec fn spec_plugin_tag(m: PluginActionModel) -> u8 {
    match m {
        PluginActionModel::Results { .. } => 0u8,
        PluginActionModel::Run { .. } => 1u8,
    }
}

pub open spec fn spec_enc_plugin_action(m: PluginActionModel) -> Seq<u8> {
    match m {
        PluginActionModel::Results { text } => seq![0u8] + spec_enc_string(text),
        PluginActionModel::Run { custom_action, info } => seq![1u8] + (spec_enc_string(
            custom_action,
        ) + spec_enc_opt_strings(info)),
    }
}

/// String-list encodings concatenate.
pub proof fn lemma_enc_strings_append(s1: Seq<Seq<char>>, s2: Seq<Seq<char>>)
    ensures
        spec_enc_strings(s1 + s2) == spec_enc_strings(s1) + spec_enc_strings(s2),
    decreases s1.len(),
{
    if s1.len() == 0 {
        assert(s1 + s2 =~= s2);
        assert(spec_enc_strings(s1) + spec_enc_strings(s2) =~= spec_enc_strings(s2));
    } else {
        let t = s1 + s2;
        assert(t[0] == s1[0]);
        assert(t.subrange(1, t.len() as int) =~= s1.subrange(1, s1.len() as int) + s2);
        lemma_enc_strings_append(s1.subrange(1, s1.len() as int), s2);
        assert(spec_enc_strings(s1 + s2) =~= spec_enc_strings(s1) + spec_enc_strings(s2));
    }
}

/// Appending one string appends its encoding.
pub proof fn lemma_enc_strings_snoc(ss: Seq<Seq<char>>, x: Seq<char>)
    ensures
        spec_enc_strings(ss.push(x)) == spec_enc_strings(ss) + spec_enc_string(x),
{
    let one = seq![x];
    assert(ss.push(x) =~= ss + one);
    lemma_enc_strings_append(ss, one);
    assert(one.subrange(1, 1) =~= Seq::<Seq<char>>::empty());
    assert(spec_enc_strings(Seq::<Seq<char>>::empty()) =~= Seq::<u8>::empty());
    assert(spec_enc_strings(one) =~= spec_enc_string(x));
}

/// A string list's encoding is at least as long as the list.
pub proof fn lemma_enc_strings_len(ss: Seq<Seq<char>>)
    ensures
        spec_enc_strings(ss).len() >= ss.len(),
    decreases ss.len(),
{
    if ss.len() != 0 {
        lemma_enc_string_len(ss[0]);
        lemma_enc_strings_len(ss.subrange(1, ss.len() as int));
    }
}

/// Every optional-string-list encoding takes at least its presence byte.
pub proof fn lemma_enc_opt_strings_len(o: Option<Seq<Seq<char>>>)
    ensures
        spec_enc_opt_strings(o).len() >= 1,
        spec_enc_opt_strings(o)[0] == (if o is Some { 1u8 } else { 0u8 }),
{
    lemma_auto_spec_u64_to_from_le_bytes();
}

/// Every request encoding starts with its discriminant byte.
pub proof fn lemma_enc_plugin_action_head(m: PluginActionModel)
    ensures
        spec_enc_plugin_action(m).len() >= 1,
        spec_enc_plugin_action(m)[0] == spec_plugin_tag(m),
        spec_plugin_tag(m) <= 1,
{
}

fn enc_strings_msg(out: &mut Vec<u8>, ss: &Vec<String>)
    ensures
        final(out)@ == old(out)@ + spec_enc_strings_msg(ss.deep_view()),
{
    let n = ss.len();
    enc_u64(out, n as u64);
    let mut i: usize = 0;
    proof {
        assert(ss.deep_view().len() == n);
        assert(ss.deep_view().take(0) =~= Seq::<Seq<char>>::empty());
        assert(spec_enc_strings(Seq::<Seq<char>>::empty()) =~= Seq::<u8>::empty());
        assert(out@ =~= old(out)@ + spec_enc_u64(n as u64) + spec_enc_strings(
            ss.deep_view().take(0),
        ));
    }
    while i < n
        invariant
            n == ss@.len(),
            n == ss.deep_view().len(),
            i <= n,
            out@ == old(out)@ + spec_enc_u64(n as u64) + spec_enc_strings(
                ss.deep_view().take(i as int),
            ),
        decreases n - i,
    {
        enc_string(out, ss[i].as_str());
        proof {
            assert(ss@[i as int]@ == ss.deep_view()[i as int]);
            assert(ss.deep_view().take(i + 1) =~= ss.deep_view().take(i as int).push(
                ss.deep_view()[i as int],
            ));
            lemma_enc_strings_snoc(ss.deep_view().take(i as int), ss.deep_view()[i as int]);
            assert(out@ =~= old(out)@ + spec_enc_u64(n as u64) + spec_enc_strings(
                ss.deep_view().take(i + 1),
            ));
        }
        i += 1;
    }
    proof {
        assert(ss.deep_view().take(n as int) =~= ss.deep_view());
        assert(out@ =~= old(out)@ + (spec_enc_u64(n as u64) + spec_enc_strings(ss.deep_view())));
    }
}

fn enc_opt_strings(out: &mut Vec<u8>, o: &Option<Vec<String>>)
    ensures
        final(out)@ == old(out)@ + spec_enc_opt_strings(o.deep_view()),
{
    match o {
        None => {
            enc_byte(out, 0);
        },
        Some(ss) => {
            enc_byte(out, 1);
            enc_strings_msg(out, ss);
            proof {
                assert(old(out)@ + seq![1u8] + spec_enc_strings_msg(ss.deep_view()) =~= old(out)@
                    + (seq![1u8] + spec_enc_strings_msg(ss.deep_view())));
            }
        },
    }
}

/// Encodes one whole request.
pub fn encode_plugin_action(a: &PluginAction) -> (out: Vec<u8>)
    ensures
        out@ == spec_enc_plugin_action(plugin_action_model(*a)),
{
    let mut out: Vec<u8> = Vec::new();
    match a {
        PluginAction::Results { text } => {
            enc_byte(&mut out, 0);
            enc_string(&mut out, text.as_str());
            proof {
                assert(out@ =~= seq![0u8] + spec_enc_string(text@));
            }
        },
        PluginAction::Run { custom_action, info } => {
            enc_byte(&mut out, 1);
            enc_string(&mut out, custom_action.as_str());
            enc_opt_strings(&mut out, info);
            proof {
                assert(out@ =~= seq![1u8] + (spec_enc_string(custom_action@)
                    + spec_enc_opt_strings(info.deep_view())));
            }
        },
    }
    out
}

/// Reads a length-prefixed list of strings.
fn dec_strings_msg(data: &[u8], pos: usize) -> (r: Result<(Vec<String>, usize), DecodeError>)
    requires
        pos <= data@.len(),
    ensures
        r matches Ok(vp) ==> pos <= vp.1 <= data@.len() && data@.subrange(pos as int, vp.1 as int)
            == spec_enc_strings_msg(vp.0.deep_view()),
        forall|ss: Seq<Seq<char>>, q: int|
            #![trigger spec_enc_strings_msg(ss), data@.subrange(pos as int, q)]
            pos <= q <= data@.len() && data@.subrange(pos as int, q) == spec_enc_strings_msg(ss)
                ==> (r matches Ok(vp) && vp.0.deep_view() == ss && vp.1 == q),
{
    proof {
        lemma_auto_spec_u64_to_from_le_bytes();
    }
    let n_total = data.len();
    let cnt = match dec_u64(data, pos) {
        Err(e) => {
            proof {
                assert forall|ss: Seq<Seq<char>>, q: int|
                    pos <= q <= data@.len() && #[trigger] data@.subrange(pos as int, q)
                        == #[trigger] spec_enc_strings_msg(ss) implies false by {
                    lemma_split(data@, pos as int, q, spec_enc_u64(ss.len() as u64),
                        spec_enc_strings(ss));
                }
            }
            return Err(e);
        },
        Ok(v) => v,
    };
    let cnt64 = cnt.0;
    let p1 = cnt.1;
    if cnt64 > (n_total - p1) as u64 {
        proof {
            assert forall|ss: Seq<Seq<char>>, q: int|
                pos <= q <= data@.len() && #[trigger] data@.subrange(pos as int, q)
                    == #[trigger] spec_enc_strings_msg(ss) implies false by {
                lemma_split(data@, pos as int, q, spec_enc_u64(ss.len() as u64),
                    spec_enc_strings(ss));
                lemma_enc_strings_len(ss);
                assert(ss.len() as u64 == cnt64);
            }
        }
        return Err(DecodeError);
    }
    let n = cnt64 as usize;
    let mut out: Vec<String> = Vec::new();
    let mut p = p1;
    let mut i: usize = 0;
    proof {
        assert(out.deep_view() =~= Seq::<Seq<char>>::empty());
        assert(data@.subrange(p1 as int, p1 as int) =~= spec_enc_strings(out.deep_view()));
        assert forall|ss: Seq<Seq<char>>, q: int|
            pos <= q <= data@.len() && #[trigger] data@.subrange(pos as int, q)
                == #[trigger] spec_enc_strings_msg(ss) implies ss.len() == n && out.deep_view()
            == ss.take(0) && p1 == p1 + spec_enc_strings(ss.take(0)).len() by {
            lemma_split(data@, pos as int, q, spec_enc_u64(ss.len() as u64),
                spec_enc_strings(ss));
            lemma_enc_strings_len(ss);
            assert(ss.len() as u64 == cnt64);
            assert(ss.take(0) =~= Seq::<Seq<char>>::empty());
            assert(out.deep_view() =~= ss.take(0));
            assert(spec_enc_strings(ss.take(0)).len() == 0);
        }
    }
    while i < n
        invariant
            n_total == data@.len(),
            pos + 8 == p1,
            p1 <= p <= n_total,
            n == cnt64,
            data@.subrange(pos as int, p1 as int) == spec_enc_u64(cnt64),
            i <= n,
            out@.len() == i,
            data@.subrange(p1 as int, p as int) == spec_enc_strings(out.deep_view()),
            forall|ss: Seq<Seq<char>>, q: int|
                #![trigger spec_enc_strings_msg(ss), data@.subrange(pos as int, q)]
                pos <= q <= data@.len() && data@.subrange(pos as int, q) == spec_enc_strings_msg(
                    ss,
                ) ==> ss.len() == n && out.deep_view() == ss.take(i as int) && p == p1
                    + spec_enc_strings(ss.take(i as int)).len(),
        decreases n - i,
    {
        let item = match dec_string(data, p) {
            Err(e) => {
                proof {
                    assert forall|ss: Seq<Seq<char>>, q: int|
                        pos <= q <= data@.len() && #[trigger] data@.subrange(pos as int, q)
                            == #[trigger] spec_enc_strings_msg(ss) implies false by {
                        lemma_strings_step(data@, pos as int, q, ss, i as int, p as int);
                    }
                }
                return Err(e);
            },
            Ok(v) => v,
        };
        let ghost out_pre = out.deep_view();
        out.push(item.0);
        proof {
            assert(out.deep_view() =~= out_pre.push(item.0@));
            lemma_enc_strings_snoc(out_pre, item.0@);
            lemma_join(data@, p1 as int, p as int, item.1 as int);
            assert(data@.subrange(p1 as int, item.1 as int) == spec_enc_strings(out.deep_view()));
            assert forall|ss: Seq<Seq<char>>, q: int|
                pos <= q <= data@.len() && #[trigger] data@.subrange(pos as int, q)
                    == #[trigger] spec_enc_strings_msg(ss) implies ss.len() == n && out.deep_view()
                == ss.take(i + 1) && item.1 == p1 + spec_enc_strings(ss.take(i + 1)).len() by {
                lemma_strings_step(data@, pos as int, q, ss, i as int, p as int);
                assert(item.0@ == ss[i as int]);
                assert(ss.take(i + 1) =~= ss.take(i as int).push(ss[i as int]));
                lemma_enc_strings_snoc(ss.take(i as int), ss[i as int]);
                assert(out.deep_view() =~= ss.take(i + 1));
            }
        }
        p = item.1;
        i += 1;
    }
    proof {
        lemma_join(data@, pos as int, p1 as int, p as int);
        assert(out.deep_view().len() as u64 == cnt64);
        assert(data@.subrange(pos as int, p as int) == spec_enc_strings_msg(out.deep_view()));
        assert forall|ss: Seq<Seq<char>>, q: int|
            pos <= q <= data@.len() && #[trigger] data@.subrange(pos as int, q)
                == #[trigger] spec_enc_strings_msg(ss) implies (out.deep_view() == ss && p == q)
            by {
            lemma_split(data@, pos as int, q, spec_enc_u64(ss.len() as u64),
                spec_enc_strings(ss));
            assert(ss.take(n as int) =~= ss);
        }
    }
    Ok((out, p))
}

/// Locates the `i`th string's encoding inside an encoded string list.
proof fn lemma_strings_step(data: Seq<u8>, pos: int, q: int, ss: Seq<Seq<char>>, i: int, p: int)
    requires
        0 <= pos,
        pos + 8 <= p <= data.len(),
        pos <= q <= data.len(),
        data.subrange(pos, q) == spec_enc_strings_msg(ss),
        0 <= i < ss.len(),
        p == pos + 8 + spec_enc_strings(ss.take(i)).len(),
    ensures
        p + spec_enc_string(ss[i]).len() <= q,
        data.subrange(p, p + spec_enc_string(ss[i]).len()) == spec_enc_string(ss[i]),
{
    lemma_auto_spec_u64_to_from_le_bytes();
    lemma_split(data, pos, q, spec_enc_u64(ss.len() as u64), spec_enc_strings(ss));
    assert(ss =~= ss.take(i) + ss.skip(i));
    lemma_enc_strings_append(ss.take(i), ss.skip(i));
    lemma_split(data, pos + 8, q, spec_enc_strings(ss.take(i)), spec_enc_strings(ss.skip(i)));
    assert(ss.skip(i)[0] == ss[i]);
    assert(ss.skip(i).subrange(1, ss.skip(i).len() as int) =~= ss.skip(i + 1));
    assert(spec_enc_strings(ss.skip(i)) == spec_enc_string(ss[i]) + spec_enc_strings(
        ss.skip(i + 1),
    ));
    lemma_split(data, p, q, spec_enc_string(ss[i]), spec_enc_strings(ss.skip(i + 1)));
}

/// Reads an optional string list: a presence byte, then the list.
fn dec_opt_strings(data: &[u8], pos: usize) -> (r: Result<
    (Option<Vec<String>>, usize),
    DecodeError,
>)
    requires
        pos <= data@.len(),
    ensures
        r matches Ok(op) ==> pos < op.1 <= data@.len() && data@.subrange(pos as int, op.1 as int)
            == spec_enc_opt_strings(op.0.deep_view()),
        forall|o: Option<Seq<Seq<char>>>, q: int|
            #![trigger spec_enc_opt_strings(o), data@.subrange(pos as int, q)]
            pos <= q <= data@.len() && data@.subrange(pos as int, q) == spec_enc_opt_strings(o)
                ==> (r matches Ok(op) && op.0.deep_view() == o && op.1 == q),
{
    match dec_byte(data, pos) {
        Err(e) => {
            proof {
                assert forall|o: Option<Seq<Seq<char>>>, q: int|
                    pos <= q <= data@.len() && #[trigger] data@.subrange(pos as int, q)
                        == #[trigger] spec_enc_opt_strings(o) implies false by {
                    lemma_enc_opt_strings_len(o);
                }
            }
            Err(e)
        },
        Ok((flag, p1)) => {
            if flag == 0 {
                proof {
                    assert(data@.subrange(pos as int, p1 as int) =~= seq![0u8]);
                    assert forall|o: Option<Seq<Seq<char>>>, q: int|
                        pos <= q <= data@.len() && #[trigger] data@.subrange(pos as int, q)
                            == #[trigger] spec_enc_opt_strings(o) implies o is None && q == p1 by {
                        lemma_enc_opt_strings_len(o);
                        assert(data@.subrange(pos as int, q)[0] == data@[pos as int]);
                        assert(o is None);
                        assert(spec_enc_opt_strings(o).len() == 1);
                    }
                }
                Ok((None, p1))
            } else if flag == 1 {
                match dec_strings_msg(data, p1) {
                    Err(e) => {
                        proof {
                            assert forall|o: Option<Seq<Seq<char>>>, q: int|
                                pos <= q <= data@.len() && #[trigger] data@.subrange(pos as int, q)
                                    == #[trigger] spec_enc_opt_strings(o) implies false by {
                                lemma_enc_opt_strings_len(o);
                                assert(data@.subrange(pos as int, q)[0] == data@[pos as int]);
                                match o {
                                    Some(ss) => {
                                        lemma_split(data@, pos as int, q, seq![1u8],
                                            spec_enc_strings_msg(ss));
                                    },
                                    None => {},
                                }
                            }
                        }
                        Err(e)
                    },
                    Ok((ss, p2)) => {
                        proof {
                            assert(data@.subrange(pos as int, p1 as int) =~= seq![1u8]);
                            lemma_join(data@, pos as int, p1 as int, p2 as int);
                            assert(data@.subrange(pos as int, p2 as int) == spec_enc_opt_strings(
                                Some(ss).deep_view(),
                            ));
                            assert forall|o: Option<Seq<Seq<char>>>, q: int|
                                pos <= q <= data@.len() && #[trigger] data@.subrange(pos as int, q)
                                    == #[trigger] spec_enc_opt_strings(o) implies (Some(
                                ss,
                            ).deep_view() == o && p2 == q) by {
                                lemma_enc_opt_strings_len(o);
                                assert(data@.subrange(pos as int, q)[0] == data@[pos as int]);
                                match o {
                                    Some(sl) => {
                                        lemma_split(data@, pos as int, q, seq![1u8],
                                            spec_enc_strings_msg(sl));
                                    },
                                    None => {},
                                }
                            }
                        }
                        Ok((Some(ss), p2))
                    },
                }
            } else {
                proof {
                    assert forall|o: Option<Seq<Seq<char>>>, q: int|
                        pos <= q <= data@.len() && #[trigger] data@.subrange(pos as int, q)
                            == #[trigger] spec_enc_opt_strings(o) implies false by {
                        lemma_enc_opt_strings_len(o);
                        assert(data@.subrange(pos as int, q)[0] == data@[pos as int]);
                    }
                }
                Err(DecodeError)
            }
        },
    }
}

/// Decodes one whole request buffer.  Succeeds exactly when the buffer
/// is, in full, the encoding of one request, and then returns that
/// request; trailing bytes or any malformation fail.
pub fn decode_plugin_action(data: &[u8]) -> (r: Result<PluginAction, DecodeError>)
    ensures
        r matches Ok(a) ==> data@ == spec_enc_plugin_action(plugin_action_model(a)),
        forall|m: PluginActionModel| #[trigger] spec_enc_plugin_action(m) == data@ ==> (
        r matches Ok(a) && plugin_action_model(a) == m),
{
    let n = data.len();
    proof {
        assert(data@.subrange(0, n as int) =~= data@);
    }
    let tag = match dec_byte(data, 0) {
        Err(e) => {
            proof {
                assert forall|m: PluginActionModel| #[trigger] spec_enc_plugin_action(m) == data@
                    implies false by {
                    lemma_enc_plugin_action_head(m);
                }
            }
            return Err(e);
        },
        Ok(v) => v,
    };
    let t = tag.0;
    let p1 = tag.1;
    if t == 0 {
        match dec_string(data, p1) {
            Err(e) => {
                proof {
                    assert forall|m: PluginActionModel| #[trigger] spec_enc_plugin_action(m)
                        == data@ implies false by {
                        lemma_enc_plugin_action_head(m);
                        assert(data@[0] == spec_enc_plugin_action(m)[0]);
                        match m {
                            PluginActionModel::Results { text } => {
                                lemma_split(data@, 0, n as int, seq![0u8], spec_enc_string(text));
                            },
                            PluginActionModel::Run { .. } => {},
                        }
                    }
                }
                Err(e)
            },
            Ok((text, p2)) => {
                if p2 == n {
                    let act = PluginAction::Results { text };
                    proof {
                        assert(data@.subrange(0, p1 as int) =~= seq![0u8]);
                        lemma_join(data@, 0, p1 as int, p2 as int);
                        assert(data@ == spec_enc_plugin_action(plugin_action_model(act)));
                        assert forall|m: PluginActionModel| #[trigger] spec_enc_plugin_action(m)
                            == data@ implies (plugin_action_model(act) == m) by {
                            lemma_enc_plugin_action_head(m);
                            assert(data@[0] == spec_enc_plugin_action(m)[0]);
                            match m {
                                PluginActionModel::Results { text: tx } => {
                                    lemma_split(data@, 0, n as int, seq![0u8], spec_enc_string(
                                        tx,
                                    ));
                                },
                                PluginActionModel::Run { .. } => {},
                            }
                        }
                    }
                    Ok(act)
                } else {
                    proof {
                        assert forall|m: PluginActionModel| #[trigger] spec_enc_plugin_action(m)
                            == data@ implies false by {
                            lemma_enc_plugin_action_head(m);
                            assert(data@[0] == spec_enc_plugin_action(m)[0]);
                            match m {
                                PluginActionModel::Results { text: tx } => {
                                    lemma_split(data@, 0, n as int, seq![0u8], spec_enc_string(
                                        tx,
                                    ));
                                },
                                PluginActionModel::Run { .. } => {},
                            }
                        }
                    }
                    Err(DecodeError)
                }
            },
        }
    } else if t == 1 {
        let ca = match dec_string(data, p1) {
            Err(e) => {
                proof {
                    assert forall|m: PluginActionModel| #[trigger] spec_enc_plugin_action(m)
                        == data@ implies false by {
                        lemma_run_fields(data@, n as int, m);
                    }
                }
                return Err(e);
            },
            Ok(v) => v,
        };
        let p2 = ca.1;
        match dec_opt_strings(data, p2) {
            Err(e) => {
                proof {
                    assert forall|m: PluginActionModel| #[trigger] spec_enc_plugin_action(m)
                        == data@ implies false by {
                        lemma_run_fields(data@, n as int, m);
                    }
                }
                Err(e)
            },
            Ok((info, p3)) => {
                if p3 == n {
                    let act = PluginAction::Run { custom_action: ca.0, info };
                    proof {
                        assert(data@.subrange(0, p1 as int) =~= seq![1u8]);
                        lemma_join(data@, 0, p1 as int, p2 as int);
                        lemma_join(data@, 0, p2 as int, p3 as int);
                        assert(data@ =~= seq![1u8] + (spec_enc_string(ca.0@)
                            + spec_enc_opt_strings(info.deep_view())));
                        assert(data@ == spec_enc_plugin_action(plugin_action_model(act)));
                        assert forall|m: PluginActionModel| #[trigger] spec_enc_plugin_action(m)
                            == data@ implies (plugin_action_model(act) == m) by {
                            lemma_run_fields(data@, n as int, m);
                        }
                    }
                    Ok(act)
                } else {
                    proof {
                        assert forall|m: PluginActionModel| #[trigger] spec_enc_plugin_action(m)
                            == data@ implies false by {
                            lemma_run_fields(data@, n as int, m);
                        }
                    }
                    Err(DecodeError)
                }
            },
        }
    } else {
        proof {
            assert forall|m: PluginActionModel| #[trigger] spec_enc_plugin_action(m) == data@
                implies false by {
                lemma_enc_plugin_action_head(m);
                assert(data@[0] == spec_enc_plugin_action(m)[0]);
            }
        }
        Err(DecodeError)
    }
}

/// The two fields of an encoded `Run` request, located in the buffer;
/// for a `Results` request it gives the single field instead.
proof fn lemma_run_fields(data: Seq<u8>, n: int, m: PluginActionModel)
    requires
        n == data.len(),
        spec_enc_plugin_action(m) == data,
    ensures
        data.len() >= 1,
        data[0] == spec_plugin_tag(m),
        m matches PluginActionModel::Run { custom_action, info } ==> {
            &&& 1 + spec_enc_string(custom_action).len() + spec_enc_opt_strings(info).len() == n
            &&& data.subrange(1, 1 + spec_enc_string(custom_action).len() as int)
                == spec_enc_string(custom_action)
            &&& data.subrange(1 + spec_enc_string(custom_action).len() as int, n)
                == spec_enc_opt_strings(info)
        },
        m matches PluginActionModel::Results { text } ==> {
            &&& 1 + spec_enc_string(text).len() == n
            &&& data.subrange(1, n) == spec_enc_string(text)
        },
{
    lemma_enc_plugin_action_head(m);
    assert(data.subrange(0, n) =~= data);
    match m {
        PluginActionModel::Results { text } => {
            lemma_split(data, 0, n, seq![0u8], spec_enc_string(text));
        },
        PluginActionModel::Run { custom_action, info } => {
            lemma_split(data, 0, n, seq![1u8], spec_enc_string(custom_action)
                + spec_enc_opt_strings(info));
            lemma_split(data, 1, n, spec_enc_string(custom_action), spec_enc_opt_strings(info));
        },
    }
}

/// Encodes one whole response: a length-prefixed sequence of results.
pub fn encode_results(results: &Vec<TUIResult>) -> (out: Vec<u8>)
    ensures
        out@ == spec_enc_results_msg(results_model(results@)),
{
    let mut out: Vec<u8> = Vec::new();
    let n = results.len();
    enc_u64(&mut out, n as u64);
    let mut i: usize = 0;
    proof {
        assert(results@.take(0) =~= Seq::<TUIResult>::empty());
        assert(results_model(Seq::<TUIResult>::empty()) =~= Seq::<ResultModel>::empty());
        assert(out@ =~= spec_enc_u64(n as u64) + spec_enc_result_seq(
            results_model(results@.take(0)),
        ));
    }
    while i < n
        invariant
            n == results@.len(),
            i <= n,
            out@ == spec_enc_u64(n as u64) + spec_enc_result_seq(
                results_model(results@.take(i as int)),
            ),
        decreases n - i,
    {
        enc_result(&mut out, &results[i]);
        proof {
            lemma_results_model(results@.take(i as int));
            lemma_results_model(results@.take(i + 1));
            assert(results_model(results@.take(i + 1)) =~= results_model(
                results@.take(i as int),
            ).push(result_model(results@[i as int])));
            lemma_enc_result_seq_snoc(
                results_model(results@.take(i as int)),
                result_model(results@[i as int]),
            );
            assert(out@ =~= spec_enc_u64(n as u64) + spec_enc_result_seq(
                results_model(results@.take(i + 1)),
            ));
        }
        i += 1;
    }
    proof {
        assert(results@.take(n as int) =~= results@);
        lemma_results_model(results@);
    }
    out
}

} // verus!
