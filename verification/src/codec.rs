//! The persisted-document codec.
//!
//! The registry is persisted as one JSON document: an array of profile
//! objects with the fields `server_name`, `server_address`, `port` and a
//! tagged `connect_methods` union distinguishing `SSHKey` from `Password`.
//! [`save_registry`] produces exactly the canonical document described by
//! the specification functions below, and [`parse_doc`] is the precise
//! grammar of what loads back. That grammar is canonical where the store's
//! own output is concerned — compact form, fields in their fixed order, no
//! inter-token whitespace — so every document the store writes loads, and
//! a document it would never write is rejected with a parse error and
//! never yields a partial registry. Within string bodies the reader
//! decodes the standard JSON escapes (`\uXXXX` only below 128) and refuses
//! raw control characters, and numbers follow JSON's grammar (no leading
//! zeros). One deliberate deviation from JSON's text layer: string
//! contents are byte-transparent. Every byte from 32 up other than the
//! quote and the backslash stands for itself and is not validated as
//! UTF-8, so the registry's names and secrets round-trip as the exact
//! bytes they are.

use crate::profile::{AuthMethod, AuthView, Error, ProfileView, Registry, ServerProfile};
use vstd::prelude::*;
use vstd::string::StringSliceAdditionalSpecFns;

verus! {

/// The bytes of an ASCII character sequence, one byte per character.
pub open spec fn ascii_seq(cs: Seq<char>) -> Seq<u8> {
    Seq::new(cs.len(), |i: int| cs[i] as u8)
}

/// The sequence of profile views held by a profile vector.
pub open spec fn profiles_view(v: Seq<ServerProfile>) -> Seq<ProfileView> {
    Seq::new(v.len(), |i: int| v[i]@)
}

// ---------------------------------------------------------------------------
// Decimal numbers
// ---------------------------------------------------------------------------

/// The decimal digits of `n`, most significant first, no leading zero.
pub open spec fn dec_bytes(n: nat) -> Seq<u8>
    decreases n,
{
    if n < 10 {
        seq![(48 + n) as u8]
    } else {
        dec_bytes(n / 10) + seq![(48 + n % 10) as u8]
    }
}

/// Appends the decimal digits of `n`.
pub fn push_u32(out: &mut Vec<u8>, n: u32)
    ensures
        final(out)@ == old(out)@ + dec_bytes(n as nat),
    decreases n,
{
    if n >= 10 {
        push_u32(out, n / 10);
    }
    out.push(48 + (n % 10) as u8);
    assert(final(out)@ =~= old(out)@ + dec_bytes(n as nat));
}

/// The decimal digits of `n` as a fresh vector.
pub fn u32_dec(n: u32) -> (r: Vec<u8>)
    ensures
        r@ == dec_bytes(n as nat),
{
    let mut out: Vec<u8> = Vec::new();
    push_u32(&mut out, n);
    assert(out@ =~= dec_bytes(n as nat));
    out
}

// ---------------------------------------------------------------------------
// String escaping
// ---------------------------------------------------------------------------

/// The lower-case hexadecimal digit of a value below 16.
pub open spec fn hex_digit(d: u8) -> u8 {
    if d < 10 {
        (48 + d) as u8
    } else {
        (87 + d) as u8
    }
}

/// How one byte appears inside a JSON string: quote, backslash and the
/// common control characters get their two-character escapes, the other
/// control characters a `\u00XX` escape, and every remaining byte stands
/// for itself.
pub open spec fn esc_byte(b: u8) -> Seq<u8> {
    if b == ('"' as u8) {
        seq![('\\' as u8), ('"' as u8)]
    } else if b == ('\\' as u8) {
        seq![('\\' as u8), ('\\' as u8)]
    } else if b == 8 {
        seq![('\\' as u8), ('b' as u8)]
    } else if b == 9 {
        seq![('\\' as u8), ('t' as u8)]
    } else if b == 10 {
        seq![('\\' as u8), ('n' as u8)]
    } else if b == 12 {
        seq![('\\' as u8), ('f' as u8)]
    } else if b == 13 {
        seq![('\\' as u8), ('r' as u8)]
    } else if b < 32 {
        seq![('\\' as u8), ('u' as u8), ('0' as u8), ('0' as u8), hex_digit(b / 16), hex_digit(
            b % 16,
        )]
    } else {
        seq![b]
    }
}

/// The escaped form of a whole string body.
pub open spec fn esc_bytes(s: Seq<u8>) -> Seq<u8>
    decreases s.len(),
{
    if s.len() == 0 {
        Seq::empty()
    } else {
        esc_byte(s[0]) + esc_bytes(s.drop_first())
    }
}

/// The lower-case hexadecimal digit, executable form.
fn hex_digit_of(d: u8) -> (r: u8)
    requires
        d < 16,
    ensures
        r == hex_digit(d),
{
    if d < 10 {
        48 + d
    } else {
        87 + d
    }
}

/// Appends the escaped form of `s[i..]`.
fn push_escaped_from(out: &mut Vec<u8>, s: &Vec<u8>, i: usize)
    requires
        i <= s@.len(),
    ensures
        final(out)@ == old(out)@ + esc_bytes(s@.skip(i as int)),
    decreases s@.len() - i,
{
    if i < s.len() {
        let b = s[i];
        if b == ('"' as u8) {
            out.push('\\' as u8);
            out.push('"' as u8);
        } else if b == ('\\' as u8) {
            out.push('\\' as u8);
            out.push('\\' as u8);
        } else if b == 8 {
            out.push('\\' as u8);
            out.push('b' as u8);
        } else if b == 9 {
            out.push('\\' as u8);
            out.push('t' as u8);
        } else if b == 10 {
            out.push('\\' as u8);
            out.push('n' as u8);
        } else if b == 12 {
            out.push('\\' as u8);
            out.push('f' as u8);
        } else if b == 13 {
            out.push('\\' as u8);
            out.push('r' as u8);
        } else if b < 32 {
            out.push('\\' as u8);
            out.push('u' as u8);
            out.push('0' as u8);
            out.push('0' as u8);
            out.push(hex_digit_of(b / 16));
            out.push(hex_digit_of(b % 16));
        } else {
            out.push(b);
        }
        assert(out@ =~= old(out)@ + esc_byte(s@[i as int]));
        push_escaped_from(out, s, i + 1);
        proof {
            assert(s@.skip(i as int)[0] == s@[i as int]);
            assert(s@.skip(i as int).drop_first() =~= s@.skip(i as int + 1));
            assert(final(out)@ =~= old(out)@ + esc_bytes(s@.skip(i as int)));
        }
    } else {
        assert(s@.skip(i as int) =~= Seq::<u8>::empty());
        assert(final(out)@ =~= old(out)@ + esc_bytes(s@.skip(i as int)));
    }
}

/// Appends the escaped form of a whole string body.
fn push_escaped(out: &mut Vec<u8>, s: &Vec<u8>)
    ensures
        final(out)@ == old(out)@ + esc_bytes(s@),
{
    push_escaped_from(out, s, 0);
    assert(s@.skip(0) =~= s@);
}

// ---------------------------------------------------------------------------
// The fixed tokens of the document
// ---------------------------------------------------------------------------

/// Appends the bytes of an ASCII literal.
fn push_lit(out: &mut Vec<u8>, s: &str)
    requires
        vstd::string::is_ascii(s),
    ensures
        final(out)@ == old(out)@ + ascii_seq(s@),
{
    let bs = s.as_bytes();
    proof {
        vstd::string::is_ascii_spec_bytes(s);
        assert(bs@ =~= ascii_seq(s@));
    }
    let n = bs.len();
    let mut j: usize = 0;
    while j < n
        invariant
            n == bs@.len(),
            j <= n,
            bs@ == ascii_seq(s@),
            out@ =~= old(out)@ + bs@.take(j as int),
        decreases n - j,
    {
        let b = bs[j];
        out.push(b);
        assert(out@ =~= old(out)@ + bs@.take(j as int + 1));
        j += 1;
    }
    assert(bs@.take(n as int) =~= bs@);
}

/// The closing quote of a string field.
pub open spec fn q() -> Seq<u8> {
    seq![('"' as u8)]
}

pub open spec fn tok_name() -> Seq<u8> {
    ascii_seq("{\"server_name\":\""@)
}

pub open spec fn tok_addr() -> Seq<u8> {
    ascii_seq(",\"server_address\":\""@)
}

pub open spec fn tok_port() -> Seq<u8> {
    ascii_seq(",\"port\":"@)
}

pub open spec fn tok_methods() -> Seq<u8> {
    ascii_seq(",\"connect_methods\":{\""@)
}

pub open spec fn tok_sshkey() -> Seq<u8> {
    ascii_seq("SSHKey\":{\"username\":\""@)
}

pub open spec fn tok_password() -> Seq<u8> {
    ascii_seq("Password\":{\"username\":\""@)
}

pub open spec fn tok_path() -> Seq<u8> {
    ascii_seq(",\"path\":\""@)
}

pub open spec fn tok_pw() -> Seq<u8> {
    ascii_seq(",\"password\":\""@)
}

pub open spec fn tok_close() -> Seq<u8> {
    ascii_seq("}}}"@)
}

// ---------------------------------------------------------------------------
// The serializer
// ---------------------------------------------------------------------------

/// The serialized form of the authentication union, from the variant tag
/// through the end of the enclosing profile object.
pub open spec fn ser_auth(a: AuthView) -> Seq<u8> {
    match a {
        AuthView::KeyAuth { username, key_path } => tok_sshkey() + esc_bytes(username) + q()
            + tok_path() + esc_bytes(key_path) + q() + tok_close(),
        AuthView::PasswordAuth { username, password } => tok_password() + esc_bytes(username) + q()
            + tok_pw() + esc_bytes(password) + q() + tok_close(),
    }
}

/// The serialized form of one profile object.
pub open spec fn ser_profile(p: ProfileView) -> Seq<u8> {
    tok_name() + esc_bytes(p.name) + q() + tok_addr() + esc_bytes(p.address) + q() + tok_port()
        + dec_bytes(p.port as nat) + tok_methods() + ser_auth(p.auth)
}

/// The comma-separated profile objects of a non-empty registry.
pub open spec fn ser_profiles(ps: Seq<ProfileView>) -> Seq<u8>
    decreases ps.len(),
{
    if ps.len() == 0 {
        Seq::empty()
    } else if ps.len() == 1 {
        ser_profile(ps[0])
    } else {
        ser_profile(ps[0]) + seq![(',' as u8)] + ser_profiles(ps.drop_first())
    }
}

/// The complete persisted document of a registry.
pub open spec fn ser_registry(ps: Seq<ProfileView>) -> Seq<u8> {
    if ps.len() == 0 {
        ascii_seq("[]"@)
    } else {
        seq![('[' as u8)] + ser_profiles(ps) + seq![(']' as u8)]
    }
}

/// Appends the serialized authentication union of `a`.
fn push_auth(out: &mut Vec<u8>, a: &AuthMethod)
    ensures
        final(out)@ == old(out)@ + ser_auth(a@),
{
    proof {
        reveal_strlit("SSHKey\":{\"username\":\"");
        reveal_strlit("Password\":{\"username\":\"");
        reveal_strlit(",\"path\":\"");
        reveal_strlit(",\"password\":\"");
        reveal_strlit("}}}");
    }
    match a {
        AuthMethod::KeyAuth { username, key_path } => {
            push_lit(out, "SSHKey\":{\"username\":\"");
            push_escaped(out, username);
            out.push('"' as u8);
            push_lit(out, ",\"path\":\"");
            push_escaped(out, key_path);
            out.push('"' as u8);
            push_lit(out, "}}}");
            assert(final(out)@ =~= old(out)@ + ser_auth(a@));
        },
        AuthMethod::PasswordAuth { username, password } => {
            push_lit(out, "Password\":{\"username\":\"");
            push_escaped(out, username);
            out.push('"' as u8);
            push_lit(out, ",\"password\":\"");
            push_escaped(out, password);
            out.push('"' as u8);
            push_lit(out, "}}}");
            assert(final(out)@ =~= old(out)@ + ser_auth(a@));
        },
    }
}

/// Appends the serialized object of one profile.
fn push_profile(out: &mut Vec<u8>, p: &ServerProfile)
    ensures
        final(out)@ == old(out)@ + ser_profile(p@),
{
    proof {
        reveal_strlit("{\"server_name\":\"");
        reveal_strlit(",\"server_address\":\"");
        reveal_strlit(",\"port\":");
        reveal_strlit(",\"connect_methods\":{\"");
    }
    push_lit(out, "{\"server_name\":\"");
    push_escaped(out, &p.name);
    out.push('"' as u8);
    push_lit(out, ",\"server_address\":\"");
    push_escaped(out, &p.address);
    out.push('"' as u8);
    push_lit(out, ",\"port\":");
    push_u32(out, p.port);
    push_lit(out, ",\"connect_methods\":{\"");
    push_auth(out, &p.auth);
    assert(final(out)@ =~= old(out)@ + ser_profile(p@));
}

/// Appends the serialized objects of `registry.profiles[i..]`, which must
/// be non-empty, separated by commas.
fn push_profiles_from(out: &mut Vec<u8>, registry: &Registry, i: usize)
    requires
        i < registry@.len(),
    ensures
        final(out)@ == old(out)@ + ser_profiles(registry@.skip(i as int)),
    decreases registry@.len() - i,
{
    push_profile(out, &registry.profiles[i]);
    proof {
        assert(registry@.skip(i as int)[0] == registry@[i as int]);
        assert(registry@.skip(i as int).drop_first() =~= registry@.skip(i as int + 1));
    }
    if registry.profiles.len() - i > 1 {
        out.push(',' as u8);
        push_profiles_from(out, registry, i + 1);
        assert(final(out)@ =~= old(out)@ + ser_profiles(registry@.skip(i as int)));
    } else {
        assert(registry@.skip(i as int).len() == 1);
        assert(final(out)@ =~= old(out)@ + ser_profiles(registry@.skip(i as int)));
    }
}

/// The canonical persisted document of the registry: the whole collection,
/// serialized in stored order. Persisting is a whole-document overwrite,
/// so the document a later reader sees is exactly this value.
pub fn save_registry(registry: &Registry) -> (r: Vec<u8>)
    ensures
        r@ == ser_registry(registry@),
{
    let mut out: Vec<u8> = Vec::new();
    if registry.profiles.len() == 0 {
        proof {
            reveal_strlit("[]");
        }
        push_lit(&mut out, "[]");
        assert(out@ =~= ser_registry(registry@));
    } else {
        out.push('[' as u8);
        push_profiles_from(&mut out, registry, 0);
        out.push(']' as u8);
        assert(registry@.skip(0) =~= registry@);
        assert(out@ =~= ser_registry(registry@));
    }
    out
}

// ---------------------------------------------------------------------------
// The parser: specification
// ---------------------------------------------------------------------------

/// Whether `doc` carries exactly the bytes of `tok` at position `i`.
pub open spec fn match_at(doc: Seq<u8>, i: int, tok: Seq<u8>) -> bool {
    0 <= i && i + tok.len() <= doc.len() && doc.subrange(i, i + tok.len()) == tok
}

/// The value of one hexadecimal digit, either case.
pub open spec fn hex_val(b: u8) -> Option<u8> {
    if 48 <= b <= 57 {
        Some((b - 48) as u8)
    } else if 97 <= b <= 102 {
        Some((b - 87) as u8)
    } else if 65 <= b <= 70 {
        Some((b - 55) as u8)
    } else {
        None
    }
}

/// Whether `b` is a decimal digit.
pub open spec fn is_digit(b: u8) -> bool {
    48 <= b <= 57
}

/// Reads a string body from position `i` up to and including the closing
/// quote: the decoded bytes and the position after the quote. Escapes are
/// the standard JSON ones; `\u00XX` is accepted for byte values below
/// 128; a raw control character or an unterminated string is an error.
/// Every other raw byte — including bytes from 128 up, with no UTF-8
/// validation — stands for itself: string contents are byte-transparent.
pub open spec fn parse_str_body(doc: Seq<u8>, i: int) -> Option<(Seq<u8>, int)>
    decreases doc.len() - i,
{
    if i < 0 || i >= doc.len() {
        None
    } else if doc[i] == ('"' as u8) {
        Some((Seq::empty(), i + 1))
    } else if doc[i] == ('\\' as u8) {
        if i + 1 < doc.len() {
            let e = doc[i + 1];
            if e == ('"' as u8) || e == ('\\' as u8) || e == ('/' as u8) {
                match parse_str_body(doc, i + 2) {
                    Some((v, j)) => Some((seq![e] + v, j)),
                    None => None,
                }
            } else if e == ('b' as u8) {
                match parse_str_body(doc, i + 2) {
                    Some((v, j)) => Some((seq![8u8] + v, j)),
                    None => None,
                }
            } else if e == ('t' as u8) {
                match parse_str_body(doc, i + 2) {
                    Some((v, j)) => Some((seq![9u8] + v, j)),
                    None => None,
                }
            } else if e == ('n' as u8) {
                match parse_str_body(doc, i + 2) {
                    Some((v, j)) => Some((seq![10u8] + v, j)),
                    None => None,
                }
            } else if e == ('f' as u8) {
                match parse_str_body(doc, i + 2) {
                    Some((v, j)) => Some((seq![12u8] + v, j)),
                    None => None,
                }
            } else if e == ('r' as u8) {
                match parse_str_body(doc, i + 2) {
                    Some((v, j)) => Some((seq![13u8] + v, j)),
                    None => None,
                }
            } else if e == ('u' as u8) {
                if i + 5 < doc.len() && doc[i + 2] == ('0' as u8) && doc[i + 3] == ('0' as u8) {
                    match (hex_val(doc[i + 4]), hex_val(doc[i + 5])) {
                        (Some(h1), Some(h2)) => {
                            let val = 16 * h1 + h2;
                            if val < 128 {
                                match parse_str_body(doc, i + 6) {
                                    Some((v, j)) => Some((seq![(val as u8)] + v, j)),
                                    None => None,
                                }
                            } else {
                                None
                            }
                        },
                        _ => None,
                    }
                } else {
                    None
                }
            } else {
                None
            }
        } else {
            None
        }
    } else if doc[i] < 32 {
        None
    } else {
        match parse_str_body(doc, i + 1) {
            Some((v, j)) => Some((seq![doc[i]] + v, j)),
            None => None,
        }
    }
}

/// Accumulates decimal digits from position `i`; stops at the first
/// non-digit; fails on a value beyond `u32::MAX`.
pub open spec fn parse_digits(doc: Seq<u8>, i: int, acc: int) -> Option<(u32, int)>
    decreases doc.len() - i,
{
    if i < 0 || acc < 0 || acc > u32::MAX {
        None
    } else if i < doc.len() && is_digit(doc[i]) {
        let acc2 = acc * 10 + (doc[i] - 48);
        if acc2 > u32::MAX {
            None
        } else {
            parse_digits(doc, i + 1, acc2)
        }
    } else {
        Some((acc as u32, i))
    }
}

/// Reads a port number: at least one digit, value within `u32`, and — as
/// in JSON's number grammar — no leading zero: a `0` is a complete number,
/// never the start of a longer digit run.
pub open spec fn parse_u32(doc: Seq<u8>, i: int) -> Option<(u32, int)> {
    if 0 <= i < doc.len() && is_digit(doc[i]) {
        if doc[i] == 48 && i + 1 < doc.len() && is_digit(doc[i + 1]) {
            None
        } else {
            parse_digits(doc, i, 0)
        }
    } else {
        None
    }
}

/// Reads the authentication union from the variant tag through the end of
/// the enclosing profile object.
pub open spec fn parse_auth(doc: Seq<u8>, i: int) -> Option<(AuthView, int)> {
    if match_at(doc, i, tok_sshkey()) {
        match parse_str_body(doc, i + tok_sshkey().len()) {
            Some((username, i2)) => if match_at(doc, i2, tok_path()) {
                match parse_str_body(doc, i2 + tok_path().len()) {
                    Some((key_path, i3)) => if match_at(doc, i3, tok_close()) {
                        Some(
                            (
                                AuthView::KeyAuth { username, key_path },
                                i3 + tok_close().len(),
                            ),
                        )
                    } else {
                        None
                    },
                    None => None,
                }
            } else {
                None
            },
            None => None,
        }
    } else if match_at(doc, i, tok_password()) {
        match parse_str_body(doc, i + tok_password().len()) {
            Some((username, i2)) => if match_at(doc, i2, tok_pw()) {
                match parse_str_body(doc, i2 + tok_pw().len()) {
                    Some((password, i3)) => if match_at(doc, i3, tok_close()) {
                        Some(
                            (
                                AuthView::PasswordAuth { username, password },
                                i3 + tok_close().len(),
                            ),
                        )
                    } else {
                        None
                    },
                    None => None,
                }
            } else {
                None
            },
            None => None,
        }
    } else {
        None
    }
}

/// Reads one profile object.
pub open spec fn parse_profile(doc: Seq<u8>, i: int) -> Option<(ProfileView, int)> {
    if match_at(doc, i, tok_name()) {
        match parse_str_body(doc, i + tok_name().len()) {
            Some((name, i1)) => if match_at(doc, i1, tok_addr()) {
                match parse_str_body(doc, i1 + tok_addr().len()) {
                    Some((address, i2)) => if match_at(doc, i2, tok_port()) {
                        match parse_u32(doc, i2 + tok_port().len()) {
                            Some((port, i3)) => if match_at(doc, i3, tok_methods()) {
                                match parse_auth(doc, i3 + tok_methods().len()) {
                                    Some((auth, i4)) => Some(
                                        (ProfileView { name, address, port, auth }, i4),
                                    ),
                                    None => None,
                                }
                            } else {
                                None
                            },
                            None => None,
                        }
                    } else {
                        None
                    },
                    None => None,
                }
            } else {
                None
            },
            None => None,
        }
    } else {
        None
    }
}

/// A successful string read moves strictly forward and stays in bounds.
pub proof fn lemma_parse_str_bounds(doc: Seq<u8>, i: int)
    ensures
        match parse_str_body(doc, i) {
            Some((v, j)) => i < j <= doc.len(),
            None => true,
        },
    decreases doc.len() - i,
{
    if 0 <= i < doc.len() {
        lemma_parse_str_bounds(doc, i + 1);
        if i + 2 <= doc.len() {
            lemma_parse_str_bounds(doc, i + 2);
        }
        if i + 6 <= doc.len() {
            lemma_parse_str_bounds(doc, i + 6);
        }
    }
}

/// A successful digit read never moves backwards.
pub proof fn lemma_parse_digits_bounds(doc: Seq<u8>, i: int, acc: int)
    requires
        0 <= i <= doc.len(),
    ensures
        match parse_digits(doc, i, acc) {
            Some((n, j)) => i <= j <= doc.len(),
            None => true,
        },
    decreases doc.len() - i,
{
    if 0 <= acc <= u32::MAX && i < doc.len() && is_digit(doc[i]) {
        let acc2 = acc * 10 + (doc[i] - 48);
        if acc2 <= u32::MAX {
            lemma_parse_digits_bounds(doc, i + 1, acc2);
        }
    }
}

/// A successful authentication read moves strictly forward.
pub proof fn lemma_parse_auth_bounds(doc: Seq<u8>, i: int)
    ensures
        match parse_auth(doc, i) {
            Some((a, j)) => i < j <= doc.len(),
            None => true,
        },
{
    reveal_strlit("SSHKey\":{\"username\":\"");
    reveal_strlit("Password\":{\"username\":\"");
    reveal_strlit(",\"path\":\"");
    reveal_strlit(",\"password\":\"");
    reveal_strlit("}}}");
    if match_at(doc, i, tok_sshkey()) {
        lemma_parse_str_bounds(doc, i + tok_sshkey().len());
        match parse_str_body(doc, i + tok_sshkey().len()) {
            Some((username, i2)) => {
                lemma_parse_str_bounds(doc, i2 + tok_path().len());
            },
            None => {},
        }
    } else if match_at(doc, i, tok_password()) {
        lemma_parse_str_bounds(doc, i + tok_password().len());
        match parse_str_body(doc, i + tok_password().len()) {
            Some((username, i2)) => {
                lemma_parse_str_bounds(doc, i2 + tok_pw().len());
            },
            None => {},
        }
    }
}

/// A successful profile read moves strictly forward.
pub proof fn lemma_parse_profile_bounds(doc: Seq<u8>, i: int)
    ensures
        match parse_profile(doc, i) {
            Some((p, j)) => i < j <= doc.len(),
            None => true,
        },
{
    reveal_strlit("{\"server_name\":\"");
    reveal_strlit(",\"server_address\":\"");
    reveal_strlit(",\"port\":");
    reveal_strlit(",\"connect_methods\":{\"");
    if match_at(doc, i, tok_name()) {
        lemma_parse_str_bounds(doc, i + tok_name().len());
        match parse_str_body(doc, i + tok_name().len()) {
            Some((name, i1)) => {
                lemma_parse_str_bounds(doc, i1 + tok_addr().len());
                match parse_str_body(doc, i1 + tok_addr().len()) {
                    Some((address, i2)) => {
                        if match_at(doc, i2, tok_port()) {
                            lemma_parse_digits_bounds(doc, i2 + tok_port().len(), 0);
                            match parse_u32(doc, i2 + tok_port().len()) {
                                Some((port, i3)) => {
                                    lemma_parse_auth_bounds(doc, i3 + tok_methods().len());
                                },
                                None => {},
                            }
                        }
                    },
                    None => {},
                }
            },
            None => {},
        }
    }
}

/// Reads the comma-separated profile objects of a non-empty array.
pub open spec fn parse_profiles(doc: Seq<u8>, i: int) -> Option<(Seq<ProfileView>, int)>
    decreases doc.len() - i,
    via parse_profiles_dec
{
    match parse_profile(doc, i) {
        Some((p, j)) => if j < doc.len() && doc[j] == (',' as u8) {
            match parse_profiles(doc, j + 1) {
                Some((ps, k)) => Some((seq![p] + ps, k)),
                None => None,
            }
        } else {
            Some((seq![p], j))
        },
        None => None,
    }
}

#[via_fn]
proof fn parse_profiles_dec(doc: Seq<u8>, i: int) {
    lemma_parse_profile_bounds(doc, i);
}

/// A successful profile-list read moves strictly forward.
pub proof fn lemma_parse_profiles_bounds(doc: Seq<u8>, i: int)
    ensures
        match parse_profiles(doc, i) {
            Some((ps, j)) => i < j <= doc.len(),
            None => true,
        },
    decreases doc.len() - i,
{
    lemma_parse_profile_bounds(doc, i);
    match parse_profile(doc, i) {
        Some((p, j)) => {
            if j < doc.len() && doc[j] == (',' as u8) {
                lemma_parse_profiles_bounds(doc, j + 1);
            }
        },
        None => {},
    }
}

/// Reads a whole persisted document: a (possibly empty) array of profile
/// objects, with nothing before or after it.
pub open spec fn parse_doc(doc: Seq<u8>) -> Option<Seq<ProfileView>> {
    if doc.len() > 0 && doc[0] == ('[' as u8) {
        if doc.len() == 2 && doc[1] == (']' as u8) {
            Some(Seq::empty())
        } else {
            match parse_profiles(doc, 1) {
                Some((ps, j)) => if j == doc.len() - 1 && doc[j] == (']' as u8) {
                    Some(ps)
                } else {
                    None
                },
                None => None,
            }
        }
    } else {
        None
    }
}

// ---------------------------------------------------------------------------
// The parser: executable form
// ---------------------------------------------------------------------------

/// The value of one hexadecimal digit, executable form.
fn hex_val_of(b: u8) -> (r: Option<u8>)
    ensures
        r == hex_val(b),
{
    if 48 <= b && b <= 57 {
        Some(b - 48)
    } else if 97 <= b && b <= 102 {
        Some(b - 87)
    } else if 65 <= b && b <= 70 {
        Some(b - 55)
    } else {
        None
    }
}

/// Decides whether `doc` carries the ASCII literal `s` at position `i`;
/// on success returns the position after it.
fn match_lit(doc: &Vec<u8>, i: usize, s: &str) -> (r: Option<usize>)
    requires
        vstd::string::is_ascii(s),
        i <= doc@.len(),
    ensures
        match r {
            Some(j) => match_at(doc@, i as int, ascii_seq(s@)) && j == i + s@.len(),
            None => !match_at(doc@, i as int, ascii_seq(s@)),
        },
{
    let bs = s.as_bytes();
    proof {
        vstd::string::is_ascii_spec_bytes(s);
        assert(bs@ =~= ascii_seq(s@));
    }
    let n = bs.len();
    let dlen = doc.len();
    if n > dlen - i {
        return None;
    }
    let mut j: usize = 0;
    while j < n
        invariant
            n == bs@.len(),
            bs@ == ascii_seq(s@),
            dlen == doc@.len(),
            i + n <= dlen,
            j <= n,
            forall|k: int| 0 <= k < j ==> doc@[i + k] == bs@[k],
        decreases n - j,
    {
        if doc[i + j] != bs[j] {
            proof {
                if match_at(doc@, i as int, ascii_seq(s@)) {
                    assert(doc@.subrange(i as int, i + n) == bs@);
                    assert(doc@.subrange(i as int, i + n)[j as int] == doc@[i + j]);
                }
            }
            return None;
        }
        j += 1;
    }
    assert(doc@.subrange(i as int, i + n) =~= bs@);
    Some(i + n)
}

/// Reads a string body, appending the decoded bytes to `out`.
fn parse_string_into(doc: &Vec<u8>, i: usize, out: &mut Vec<u8>) -> (r: Option<usize>)
    requires
        i <= doc@.len(),
    ensures
        match (r, parse_str_body(doc@, i as int)) {
            (Some(j), Some((v, sj))) => j == sj && final(out)@ == old(out)@ + v && i < j
                <= doc@.len(),
            (None, None) => true,
            _ => false,
        },
    decreases doc@.len() - i,
{
    proof {
        lemma_parse_str_bounds(doc@, i as int);
    }
    if i >= doc.len() {
        return None;
    }
    let b = doc[i];
    if b == ('"' as u8) {
        assert(final(out)@ =~= old(out)@ + Seq::<u8>::empty());
        return Some(i + 1);
    }
    if b == ('\\' as u8) {
        if doc.len() - i < 2 {
            return None;
        }
        let e = doc[i + 1];
        let decoded: u8;
        if e == ('"' as u8) || e == ('\\' as u8) || e == ('/' as u8) {
            decoded = e;
        } else if e == ('b' as u8) {
            decoded = 8;
        } else if e == ('t' as u8) {
            decoded = 9;
        } else if e == ('n' as u8) {
            decoded = 10;
        } else if e == ('f' as u8) {
            decoded = 12;
        } else if e == ('r' as u8) {
            decoded = 13;
        } else if e == ('u' as u8) {
            if doc.len() - i < 6 || doc[i + 2] != ('0' as u8) || doc[i + 3] != ('0' as u8) {
                return None;
            }
            let h1 = match hex_val_of(doc[i + 4]) {
                Some(h) => h,
                None => {
                    return None;
                },
            };
            let h2 = match hex_val_of(doc[i + 5]) {
                Some(h) => h,
                None => {
                    return None;
                },
            };
            assert(h1 < 16 && h2 < 16);
            let val = 16 * h1 + h2;
            if val >= 128 {
                return None;
            }
            out.push(val);
            let r = parse_string_into(doc, i + 6, out);
            proof {
                match (r, parse_str_body(doc@, i as int + 6)) {
                    (Some(j), Some((v, sj))) => {
                        assert(final(out)@ =~= old(out)@ + (seq![val] + v));
                    },
                    _ => {},
                }
            }
            return r;
        } else {
            return None;
        }
        out.push(decoded);
        let r = parse_string_into(doc, i + 2, out);
        proof {
            match (r, parse_str_body(doc@, i as int + 2)) {
                (Some(j), Some((v, sj))) => {
                    assert(final(out)@ =~= old(out)@ + (seq![decoded] + v));
                },
                _ => {},
            }
        }
        return r;
    }
    if b < 32 {
        return None;
    }
    out.push(b);
    let r = parse_string_into(doc, i + 1, out);
    proof {
        match (r, parse_str_body(doc@, i as int + 1)) {
            (Some(j), Some((v, sj))) => {
                assert(final(out)@ =~= old(out)@ + (seq![b] + v));
            },
            _ => {},
        }
    }
    r
}

/// Reads a port number.
fn parse_digits_exec(doc: &Vec<u8>, i: usize, acc: u32) -> (r: Option<(u32, usize)>)
    requires
        i <= doc@.len(),
    ensures
        match (r, parse_digits(doc@, i as int, acc as int)) {
            (Some((n, j)), Some((sn, sj))) => n == sn && j == sj && i <= j <= doc@.len(),
            (None, None) => true,
            _ => false,
        },
    decreases doc@.len() - i,
{
    if i < doc.len() {
        let b = doc[i];
        if 48 <= b && b <= 57 {
            let acc2: u64 = acc as u64 * 10 + (b - 48) as u64;
            if acc2 > u32::MAX as u64 {
                return None;
            }
            return parse_digits_exec(doc, i + 1, acc2 as u32);
        }
    }
    Some((acc, i))
}

/// Reads a port number: at least one digit, no leading zero.
fn parse_u32_exec(doc: &Vec<u8>, i: usize) -> (r: Option<(u32, usize)>)
    requires
        i <= doc@.len(),
    ensures
        match (r, parse_u32(doc@, i as int)) {
            (Some((n, j)), Some((sn, sj))) => n == sn && j == sj && i <= j <= doc@.len(),
            (None, None) => true,
            _ => false,
        },
{
    if i < doc.len() {
        let b = doc[i];
        if 48 <= b && b <= 57 {
            if b == 48 && i + 1 < doc.len() {
                let b2 = doc[i + 1];
                if 48 <= b2 && b2 <= 57 {
                    return None;
                }
            }
            return parse_digits_exec(doc, i, 0);
        }
    }
    None
}

/// Reads the authentication union.
fn parse_auth_exec(doc: &Vec<u8>, i: usize) -> (r: Option<(AuthMethod, usize)>)
    requires
        i <= doc@.len(),
    ensures
        match (r, parse_auth(doc@, i as int)) {
            (Some((a, j)), Some((sa, sj))) => a@ == sa && j == sj && i < j <= doc@.len(),
            (None, None) => true,
            _ => false,
        },
{
    proof {
        reveal_strlit("SSHKey\":{\"username\":\"");
        reveal_strlit("Password\":{\"username\":\"");
        reveal_strlit(",\"path\":\"");
        reveal_strlit(",\"password\":\"");
        reveal_strlit("}}}");
        lemma_parse_auth_bounds(doc@, i as int);
    }
    if let Some(i1) = match_lit(doc, i, "SSHKey\":{\"username\":\"") {
        let mut username: Vec<u8> = Vec::new();
        let i2 = match parse_string_into(doc, i1, &mut username) {
            Some(j) => j,
            None => {
                return None;
            },
        };
        let i3 = match match_lit(doc, i2, ",\"path\":\"") {
            Some(j) => j,
            None => {
                return None;
            },
        };
        let mut key_path: Vec<u8> = Vec::new();
        let i4 = match parse_string_into(doc, i3, &mut key_path) {
            Some(j) => j,
            None => {
                return None;
            },
        };
        let i5 = match match_lit(doc, i4, "}}}") {
            Some(j) => j,
            None => {
                return None;
            },
        };
        Some((AuthMethod::KeyAuth { username, key_path }, i5))
    } else if let Some(i1) = match_lit(doc, i, "Password\":{\"username\":\"") {
        let mut username: Vec<u8> = Vec::new();
        let i2 = match parse_string_into(doc, i1, &mut username) {
            Some(j) => j,
            None => {
                return None;
            },
        };
        let i3 = match match_lit(doc, i2, ",\"password\":\"") {
            Some(j) => j,
            None => {
                return None;
            },
        };
        let mut password: Vec<u8> = Vec::new();
        let i4 = match parse_string_into(doc, i3, &mut password) {
            Some(j) => j,
            None => {
                return None;
            },
        };
        let i5 = match match_lit(doc, i4, "}}}") {
            Some(j) => j,
            None => {
                return None;
            },
        };
        Some((AuthMethod::PasswordAuth { username, password }, i5))
    } else {
        None
    }
}

/// Reads one profile object.
fn parse_profile_exec(doc: &Vec<u8>, i: usize) -> (r: Option<(ServerProfile, usize)>)
    requires
        i <= doc@.len(),
    ensures
        match (r, parse_profile(doc@, i as int)) {
            (Some((p, j)), Some((sp, sj))) => p@ == sp && j == sj && i < j <= doc@.len(),
            (None, None) => true,
            _ => false,
        },
{
    proof {
        reveal_strlit("{\"server_name\":\"");
        reveal_strlit(",\"server_address\":\"");
        reveal_strlit(",\"port\":");
        reveal_strlit(",\"connect_methods\":{\"");
        lemma_parse_profile_bounds(doc@, i as int);
    }
    let i1 = match match_lit(doc, i, "{\"server_name\":\"") {
        Some(j) => j,
        None => {
            return None;
        },
    };
    let mut name: Vec<u8> = Vec::new();
    let i2 = match parse_string_into(doc, i1, &mut name) {
        Some(j) => j,
        None => {
            return None;
        },
    };
    let i3 = match match_lit(doc, i2, ",\"server_address\":\"") {
        Some(j) => j,
        None => {
            return None;
        },
    };
    let mut address: Vec<u8> = Vec::new();
    let i4 = match parse_string_into(doc, i3, &mut address) {
        Some(j) => j,
        None => {
            return None;
        },
    };
    let i5 = match match_lit(doc, i4, ",\"port\":") {
        Some(j) => j,
        None => {
            return None;
        },
    };
    let (port, i6) = match parse_u32_exec(doc, i5) {
        Some(pj) => pj,
        None => {
            return None;
        },
    };
    let i7 = match match_lit(doc, i6, ",\"connect_methods\":{\"") {
        Some(j) => j,
        None => {
            return None;
        },
    };
    let (auth, i8) = match parse_auth_exec(doc, i7) {
        Some(aj) => aj,
        None => {
            return None;
        },
    };
    Some((ServerProfile { name, address, port, auth }, i8))
}

/// Reads the comma-separated profile objects of a non-empty array,
/// appending them to `out`.
fn parse_profiles_into(doc: &Vec<u8>, i: usize, out: &mut Vec<ServerProfile>) -> (r: Option<usize>)
    requires
        i <= doc@.len(),
    ensures
        match (r, parse_profiles(doc@, i as int)) {
            (Some(j), Some((ps, sj))) => j == sj && profiles_view(final(out)@) == profiles_view(
                old(out)@,
            ) + ps && i < j <= doc@.len(),
            (None, None) => true,
            _ => false,
        },
    decreases doc@.len() - i,
{
    proof {
        lemma_parse_profiles_bounds(doc@, i as int);
    }
    let (p, j) = match parse_profile_exec(doc, i) {
        Some(pj) => pj,
        None => {
            return None;
        },
    };
    let ghost pv = p@;
    out.push(p);
    assert(profiles_view(out@) =~= profiles_view(old(out)@).push(pv));
    if j < doc.len() && doc[j] == (',' as u8) {
        let r = parse_profiles_into(doc, j + 1, out);
        proof {
            match (r, parse_profiles(doc@, j + 1)) {
                (Some(k), Some((ps, sk))) => {
                    assert(profiles_view(final(out)@) =~= profiles_view(old(out)@) + (seq![pv]
                        + ps));
                },
                _ => {},
            }
        }
        r
    } else {
        assert(profiles_view(final(out)@) =~= profiles_view(old(out)@) + seq![pv]);
        Some(j)
    }
}

/// Decodes a complete persisted document. The result is `Ok` exactly when
/// [`parse_doc`] accepts the document as a profile array; everything else
/// is reported as a [`Error::ParseError`] and never yields a partial
/// registry.
pub fn parse_document(doc: &Vec<u8>) -> (r: Result<Registry, Error>)
    ensures
        match r {
            Ok(reg) => parse_doc(doc@) == Some(reg@),
            Err(e) => e == Error::ParseError && parse_doc(doc@) is None,
        },
{
    if doc.len() == 0 || doc[0] != ('[' as u8) {
        return Err(Error::ParseError);
    }
    if doc.len() == 2 && doc[1] == (']' as u8) {
        let reg = Registry { profiles: Vec::new() };
        assert(reg@ =~= Seq::<ProfileView>::empty());
        return Ok(reg);
    }
    let mut profiles: Vec<ServerProfile> = Vec::new();
    assert(profiles_view(profiles@) =~= Seq::<ProfileView>::empty());
    let j = match parse_profiles_into(doc, 1, &mut profiles) {
        Some(j) => j,
        None => {
            return Err(Error::ParseError);
        },
    };
    if j == doc.len() - 1 && doc[j] == (']' as u8) {
        let reg = Registry { profiles };
        proof {
            match parse_profiles(doc@, 1) {
                Some((ps, sj)) => {
                    assert(reg@ =~= ps);
                },
                None => {},
            }
        }
        Ok(reg)
    } else {
        Err(Error::ParseError)
    }
}

/// Reads the persisted document for the registry operations: an absent or
/// zero-length document stands for the empty registry, while a malformed
/// one is rejected.
pub fn load_registry(doc: &Vec<u8>) -> (r: Result<Registry, Error>)
    ensures
        match r {
            Ok(reg) => (doc@.len() == 0 && reg@ == Seq::<ProfileView>::empty()) || parse_doc(doc@)
                == Some(reg@),
            Err(e) => e == Error::ParseError && doc@.len() != 0 && parse_doc(doc@) is None,
        },
{
    if doc.len() == 0 {
        let reg = Registry { profiles: Vec::new() };
        assert(reg@ =~= Seq::<ProfileView>::empty());
        Ok(reg)
    } else {
        parse_document(doc)
    }
}

// ---------------------------------------------------------------------------
// Round trip: the parser inverts the serializer
// ---------------------------------------------------------------------------

/// A subrange of a subrange, read off against the inner sequence.
proof fn lemma_sub_at(doc: Seq<u8>, i: int, full: Seq<u8>, a: int, b: int)
    requires
        0 <= i,
        i + full.len() <= doc.len(),
        doc.subrange(i, i + full.len()) == full,
        0 <= a <= b <= full.len(),
    ensures
        doc.subrange(i + a, i + b) == full.subrange(a, b),
{
    assert(doc.subrange(i + a, i + b) =~= full.subrange(a, b)) by {
        assert forall|k: int| 0 <= k < b - a implies doc.subrange(i + a, i + b)[k] == full.subrange(
            a,
            b,
        )[k] by {
            assert(doc.subrange(i, i + full.len())[a + k] == doc[i + a + k]);
        }
    }
}

/// An escaped string body followed by its closing quote parses back to the
/// original bytes.
proof fn lemma_parse_escaped(doc: Seq<u8>, i: int, v: Seq<u8>)
    requires
        0 <= i,
        i + esc_bytes(v).len() + 1 <= doc.len(),
        doc.subrange(i, i + esc_bytes(v).len()) == esc_bytes(v),
        doc[i + esc_bytes(v).len()] == ('"' as u8),
    ensures
        parse_str_body(doc, i) == Some((v, i + esc_bytes(v).len() + 1)),
    decreases v.len(),
{
    if v.len() == 0 {
        assert(esc_bytes(v).len() == 0);
    } else {
        let b = v[0];
        let e = esc_byte(b);
        let rest = v.drop_first();
        let el = e.len();
        let rl = esc_bytes(rest).len() as int;
        assert(esc_bytes(v) == e + esc_bytes(rest));
        assert(esc_bytes(v).len() == el + rl);
        assert forall|k: int| 0 <= k < el implies doc[i + k] == e[k] by {
            assert(doc.subrange(i, i + esc_bytes(v).len())[k] == doc[i + k]);
            assert((e + esc_bytes(rest))[k] == e[k]);
        }
        assert(doc.subrange(i + el, i + el + rl) =~= esc_bytes(rest)) by {
            assert forall|k: int| 0 <= k < rl implies doc.subrange(i + el, i + el + rl)[k]
                == esc_bytes(rest)[k] by {
                assert(doc.subrange(i, i + esc_bytes(v).len())[el + k] == doc[i + el + k]);
                assert((e + esc_bytes(rest))[el + k] == esc_bytes(rest)[k]);
            }
        }
        assert(doc[i + el + rl] == ('"' as u8));
        lemma_parse_escaped(doc, i + el, rest);
        assert(v =~= seq![b] + rest);
        if b == ('"' as u8) || b == ('\\' as u8) {
            assert(doc[i] == ('\\' as u8) && doc[i + 1] == b);
        } else if b == 8 || b == 9 || b == 10 || b == 12 || b == 13 {
            assert(doc[i] == ('\\' as u8));
        } else if b < 32 {
            assert(doc[i] == ('\\' as u8) && doc[i + 1] == ('u' as u8));
            assert(doc[i + 2] == ('0' as u8) && doc[i + 3] == ('0' as u8));
            assert(doc[i + 4] == hex_digit(b / 16) && doc[i + 5] == hex_digit(b % 16));
            assert(hex_val(hex_digit(b / 16)) == Some(b / 16));
            assert(hex_val(hex_digit(b % 16)) == Some(b % 16));
            assert(16 * (b / 16) + (b % 16) == b);
        } else {
            assert(doc[i] == b);
        }
    }
}

/// Every position of a digit run holds a digit.
pub open spec fn all_digits(s: Seq<u8>) -> bool {
    forall|k: int| 0 <= k < s.len() ==> is_digit(#[trigger] s[k])
}

/// The value of a digit run appended to an accumulator.
pub open spec fn combine(acc: int, s: Seq<u8>) -> int
    decreases s.len(),
{
    if s.len() == 0 {
        acc
    } else {
        combine(acc * 10 + (s[0] - 48), s.drop_first())
    }
}

/// Accumulating digits never shrinks the value.
proof fn lemma_combine_ge(acc: int, s: Seq<u8>)
    requires
        acc >= 0,
        all_digits(s),
    ensures
        combine(acc, s) >= acc,
    decreases s.len(),
{
    if s.len() > 0 {
        assert(is_digit(s[0]));
        let acc2 = acc * 10 + (s[0] - 48);
        assert forall|k: int| 0 <= k < s.drop_first().len() implies is_digit(
            #[trigger] s.drop_first()[k],
        ) by {
            assert(s.drop_first()[k] == s[k + 1]);
        }
        lemma_combine_ge(acc2, s.drop_first());
    }
}

/// The digit reader consumes exactly a digit run that is followed by a
/// non-digit, and computes its value.
proof fn lemma_parse_digits_run(doc: Seq<u8>, i: int, acc: int, ds: Seq<u8>)
    requires
        0 <= i,
        i + ds.len() <= doc.len(),
        doc.subrange(i, i + ds.len()) == ds,
        all_digits(ds),
        i + ds.len() == doc.len() || !is_digit(doc[i + ds.len()]),
        0 <= acc,
        combine(acc, ds) <= u32::MAX,
    ensures
        parse_digits(doc, i, acc) == Some((combine(acc, ds) as u32, i + ds.len())),
    decreases ds.len(),
{
    lemma_combine_ge(acc, ds);
    if ds.len() == 0 {
    } else {
        assert(doc.subrange(i, i + ds.len())[0] == doc[i]);
        assert(is_digit(ds[0]));
        let acc2 = acc * 10 + (doc[i] - 48);
        let rest = ds.drop_first();
        assert forall|k: int| 0 <= k < rest.len() implies is_digit(#[trigger] rest[k]) by {
            assert(rest[k] == ds[k + 1]);
        }
        assert(combine(acc, ds) == combine(acc2, rest));
        lemma_combine_ge(acc2, rest);
        assert(doc.subrange(i + 1, i + 1 + rest.len()) =~= rest) by {
            assert forall|k: int| 0 <= k < rest.len() implies doc.subrange(
                i + 1,
                i + 1 + rest.len(),
            )[k] == rest[k] by {
                assert(doc.subrange(i, i + ds.len())[k + 1] == doc[i + k + 1]);
            }
        }
        lemma_parse_digits_run(doc, i + 1, acc2, rest);
    }
}

/// The decimal expansion of a number is made of digits.
proof fn lemma_dec_digits(n: nat)
    ensures
        all_digits(dec_bytes(n)),
    decreases n,
{
    if n >= 10 {
        lemma_dec_digits(n / 10);
        let a = dec_bytes(n / 10);
        assert forall|k: int| 0 <= k < dec_bytes(n).len() implies is_digit(
            #[trigger] dec_bytes(n)[k],
        ) by {
            if k < a.len() {
                assert(dec_bytes(n)[k] == a[k]);
            }
        }
    }
}

/// Reading one more digit multiplies the accumulated value by ten.
proof fn lemma_combine_snoc(acc: int, s: Seq<u8>, d: u8)
    ensures
        combine(acc, s.push(d)) == combine(acc, s) * 10 + (d - 48),
    decreases s.len(),
{
    if s.len() == 0 {
        assert(s.push(d)[0] == d);
        assert(s.push(d).drop_first() =~= Seq::<u8>::empty());
        assert(combine(acc, s.push(d)) == combine(acc * 10 + (d - 48), Seq::<u8>::empty()));
        assert(combine(acc * 10 + (d - 48), Seq::<u8>::empty()) == acc * 10 + (d - 48));
        assert(combine(acc, s) == acc);
    } else {
        assert(s.push(d)[0] == s[0]);
        assert(s.push(d).drop_first() =~= s.drop_first().push(d));
        let acc2 = acc * 10 + (s[0] - 48);
        assert(combine(acc, s.push(d)) == combine(acc2, s.drop_first().push(d)));
        lemma_combine_snoc(acc2, s.drop_first(), d);
        assert(combine(acc, s) == combine(acc2, s.drop_first()));
    }
}

/// The value of a decimal expansion is the number itself.
proof fn lemma_combine_dec(n: nat)
    ensures
        combine(0, dec_bytes(n)) == n,
    decreases n,
{
    if n < 10 {
        assert(dec_bytes(n)[0] == (48 + n) as u8);
        assert(dec_bytes(n).drop_first() =~= Seq::<u8>::empty());
        assert(combine(0, dec_bytes(n)) == combine(0 * 10 + ((48 + n) as u8 - 48),
        Seq::<u8>::empty()));
        assert(combine(0 * 10 + ((48 + n) as u8 - 48), Seq::<u8>::empty()) == n);
    } else {
        lemma_combine_dec(n / 10);
        assert(dec_bytes(n) =~= dec_bytes(n / 10).push((48 + n % 10) as u8));
        lemma_combine_snoc(0, dec_bytes(n / 10), (48 + n % 10) as u8);
        assert(combine(0, dec_bytes(n)) == combine(0, dec_bytes(n / 10)) * 10 + ((48 + n % 10) as u8
            - 48));
        assert((n / 10) * 10 + n % 10 == n);
    }
}

/// A positive number never starts with a zero digit.
proof fn lemma_dec_leading(n: nat)
    ensures
        n > 0 ==> dec_bytes(n)[0] != 48,
    decreases n,
{
    if n >= 10 {
        lemma_dec_leading(n / 10);
        assert(dec_bytes(n / 10).len() >= 1);
        assert(dec_bytes(n)[0] == dec_bytes(n / 10)[0]);
    }
}

/// A serialized port number parses back to itself: `dec_bytes` emits no
/// leading zero, so the number grammar's leading-zero rejection never
/// fires on it.
proof fn lemma_parse_u32_of_dec(doc: Seq<u8>, i: int, n: u32)
    requires
        0 <= i,
        i + dec_bytes(n as nat).len() <= doc.len(),
        doc.subrange(i, i + dec_bytes(n as nat).len()) == dec_bytes(n as nat),
        i + dec_bytes(n as nat).len() == doc.len() || !is_digit(doc[i + dec_bytes(n as nat).len()]),
    ensures
        parse_u32(doc, i) == Some((n, i + dec_bytes(n as nat).len())),
{
    let ds = dec_bytes(n as nat);
    lemma_dec_digits(n as nat);
    lemma_combine_dec(n as nat);
    assert(ds.len() >= 1);
    assert(doc.subrange(i, i + ds.len())[0] == doc[i]);
    assert(is_digit(ds[0]));
    if ds[0] == 48 {
        lemma_dec_leading(n as nat);
        assert(n == 0);
        assert(ds.len() == 1);
    }
    lemma_parse_digits_run(doc, i, 0, ds);
}

/// A serialized authentication union parses back to itself.
proof fn lemma_parse_auth_of_ser(doc: Seq<u8>, i: int, a: AuthView)
    requires
        0 <= i,
        i + ser_auth(a).len() <= doc.len(),
        doc.subrange(i, i + ser_auth(a).len()) == ser_auth(a),
    ensures
        parse_auth(doc, i) == Some((a, i + ser_auth(a).len())),
{
    reveal_strlit("SSHKey\":{\"username\":\"");
    reveal_strlit("Password\":{\"username\":\"");
    reveal_strlit(",\"path\":\"");
    reveal_strlit(",\"password\":\"");
    reveal_strlit("}}}");
    let full = ser_auth(a);
    match a {
        AuthView::KeyAuth { username, key_path } => {
            let t1 = tok_sshkey();
            let e1 = esc_bytes(username);
            let t2 = tok_path();
            let e2 = esc_bytes(key_path);
            let t3 = tok_close();
            let o1 = t1.len() as int;
            let o2 = o1 + e1.len() + 1;
            let o3 = o2 + t2.len();
            let o4 = o3 + e2.len() + 1;
            assert(full.len() == o4 + t3.len());
            assert(full.subrange(0, o1) =~= t1);
            lemma_sub_at(doc, i, full, 0, o1);
            assert(match_at(doc, i, t1));
            assert(full.subrange(o1, o2 - 1) =~= e1);
            lemma_sub_at(doc, i, full, o1, o2 - 1);
            assert(full[o2 - 1] == ('"' as u8));
            assert(doc.subrange(i, i + full.len())[o2 - 1] == doc[i + o2 - 1]);
            lemma_parse_escaped(doc, i + o1, username);
            assert(parse_str_body(doc, i + o1) == Some((username, i + o2)));
            assert(full.subrange(o2, o3) =~= t2);
            lemma_sub_at(doc, i, full, o2, o3);
            assert(match_at(doc, i + o2, t2));
            assert(full.subrange(o3, o4 - 1) =~= e2);
            lemma_sub_at(doc, i, full, o3, o4 - 1);
            assert(full[o4 - 1] == ('"' as u8));
            assert(doc.subrange(i, i + full.len())[o4 - 1] == doc[i + o4 - 1]);
            lemma_parse_escaped(doc, i + o3, key_path);
            assert(parse_str_body(doc, i + o3) == Some((key_path, i + o4)));
            assert(full.subrange(o4, o4 + t3.len()) =~= t3);
            lemma_sub_at(doc, i, full, o4, o4 + t3.len());
            assert(match_at(doc, i + o4, t3));
            assert(!match_at(doc, i, tok_password())) by {
                if match_at(doc, i, tok_password()) {
                    assert(doc.subrange(i, i + tok_password().len())[0] == doc[i]);
                    assert(doc.subrange(i, i + t1.len())[0] == doc[i]);
                }
            }
        },
        AuthView::PasswordAuth { username, password } => {
            let t1 = tok_password();
            let e1 = esc_bytes(username);
            let t2 = tok_pw();
            let e2 = esc_bytes(password);
            let t3 = tok_close();
            let o1 = t1.len() as int;
            let o2 = o1 + e1.len() + 1;
            let o3 = o2 + t2.len();
            let o4 = o3 + e2.len() + 1;
            assert(full.len() == o4 + t3.len());
            assert(full.subrange(0, o1) =~= t1);
            lemma_sub_at(doc, i, full, 0, o1);
            assert(match_at(doc, i, t1));
            assert(full.subrange(o1, o2 - 1) =~= e1);
            lemma_sub_at(doc, i, full, o1, o2 - 1);
            assert(full[o2 - 1] == ('"' as u8));
            assert(doc.subrange(i, i + full.len())[o2 - 1] == doc[i + o2 - 1]);
            lemma_parse_escaped(doc, i + o1, username);
            assert(parse_str_body(doc, i + o1) == Some((username, i + o2)));
            assert(full.subrange(o2, o3) =~= t2);
            lemma_sub_at(doc, i, full, o2, o3);
            assert(match_at(doc, i + o2, t2));
            assert(full.subrange(o3, o4 - 1) =~= e2);
            lemma_sub_at(doc, i, full, o3, o4 - 1);
            assert(full[o4 - 1] == ('"' as u8));
            assert(doc.subrange(i, i + full.len())[o4 - 1] == doc[i + o4 - 1]);
            lemma_parse_escaped(doc, i + o3, password);
            assert(parse_str_body(doc, i + o3) == Some((password, i + o4)));
            assert(full.subrange(o4, o4 + t3.len()) =~= t3);
            lemma_sub_at(doc, i, full, o4, o4 + t3.len());
            assert(match_at(doc, i + o4, t3));
            assert(!match_at(doc, i, tok_sshkey())) by {
                if match_at(doc, i, tok_sshkey()) {
                    assert(doc.subrange(i, i + tok_sshkey().len())[0] == doc[i]);
                    assert(doc.subrange(i, i + t1.len())[0] == doc[i]);
                }
            }
        },
    }
}

/// A serialized profile object parses back to itself.
proof fn lemma_parse_profile_of_ser(doc: Seq<u8>, i: int, p: ProfileView)
    requires
        0 <= i,
        i + ser_profile(p).len() <= doc.len(),
        doc.subrange(i, i + ser_profile(p).len()) == ser_profile(p),
    ensures
        parse_profile(doc, i) == Some((p, i + ser_profile(p).len())),
{
    reveal_strlit("{\"server_name\":\"");
    reveal_strlit(",\"server_address\":\"");
    reveal_strlit(",\"port\":");
    reveal_strlit(",\"connect_methods\":{\"");
    let full = ser_profile(p);
    let t1 = tok_name();
    let e1 = esc_bytes(p.name);
    let t2 = tok_addr();
    let e2 = esc_bytes(p.address);
    let t3 = tok_port();
    let ds = dec_bytes(p.port as nat);
    let t4 = tok_methods();
    let sa = ser_auth(p.auth);
    let o1 = t1.len() as int;
    let o2 = o1 + e1.len() + 1;
    let o3 = o2 + t2.len();
    let o4 = o3 + e2.len() + 1;
    let o5 = o4 + t3.len();
    let o6 = o5 + ds.len();
    let o7 = o6 + t4.len();
    assert(full.len() == o7 + sa.len());
    assert(full.subrange(0, o1) =~= t1);
    lemma_sub_at(doc, i, full, 0, o1);
    assert(match_at(doc, i, t1));
    assert(full.subrange(o1, o2 - 1) =~= e1);
    lemma_sub_at(doc, i, full, o1, o2 - 1);
    assert(full[o2 - 1] == ('"' as u8));
    assert(doc.subrange(i, i + full.len())[o2 - 1] == doc[i + o2 - 1]);
    lemma_parse_escaped(doc, i + o1, p.name);
    assert(parse_str_body(doc, i + o1) == Some((p.name, i + o2)));
    assert(full.subrange(o2, o3) =~= t2);
    lemma_sub_at(doc, i, full, o2, o3);
    assert(match_at(doc, i + o2, t2));
    assert(full.subrange(o3, o4 - 1) =~= e2);
    lemma_sub_at(doc, i, full, o3, o4 - 1);
    assert(full[o4 - 1] == ('"' as u8));
    assert(doc.subrange(i, i + full.len())[o4 - 1] == doc[i + o4 - 1]);
    lemma_parse_escaped(doc, i + o3, p.address);
    assert(parse_str_body(doc, i + o3) == Some((p.address, i + o4)));
    assert(full.subrange(o4, o5) =~= t3);
    lemma_sub_at(doc, i, full, o4, o5);
    assert(match_at(doc, i + o4, t3));
    assert(full.subrange(o5, o6) =~= ds);
    lemma_sub_at(doc, i, full, o5, o6);
    assert(full[o6] == (',' as u8));
    assert(doc.subrange(i, i + full.len())[o6] == doc[i + o6]);
    assert(!is_digit(doc[i + o6]));
    lemma_parse_u32_of_dec(doc, i + o5, p.port);
    assert(parse_u32(doc, i + o5) == Some((p.port, i + o6)));
    assert(full.subrange(o6, o7) =~= t4);
    lemma_sub_at(doc, i, full, o6, o7);
    assert(match_at(doc, i + o6, t4));
    assert(full.subrange(o7, o7 + sa.len()) =~= sa);
    lemma_sub_at(doc, i, full, o7, o7 + sa.len());
    lemma_parse_auth_of_ser(doc, i + o7, p.auth);
}

/// A serialized profile list, followed by something other than another
/// profile, parses back to itself.
proof fn lemma_parse_profiles_of_ser(doc: Seq<u8>, i: int, ps: Seq<ProfileView>)
    requires
        0 <= i,
        ps.len() >= 1,
        i + ser_profiles(ps).len() <= doc.len(),
        doc.subrange(i, i + ser_profiles(ps).len()) == ser_profiles(ps),
        i + ser_profiles(ps).len() == doc.len() || doc[i + ser_profiles(ps).len()] != (',' as u8),
    ensures
        parse_profiles(doc, i) == Some((ps, i + ser_profiles(ps).len())),
    decreases ps.len(),
{
    let full = ser_profiles(ps);
    let p0 = ps[0];
    let sp = ser_profile(p0);
    if ps.len() == 1 {
        lemma_parse_profile_of_ser(doc, i, p0);
        assert(seq![p0] =~= ps);
    } else {
        let rest = ps.drop_first();
        let sr = ser_profiles(rest);
        assert(full == sp + seq![(',' as u8)] + sr);
        assert(full.subrange(0, sp.len() as int) =~= sp);
        lemma_sub_at(doc, i, full, 0, sp.len() as int);
        lemma_parse_profile_of_ser(doc, i, p0);
        let j = i + sp.len();
        assert(full[sp.len() as int] == (',' as u8));
        assert(doc.subrange(i, i + full.len())[sp.len() as int] == doc[j]);
        assert(doc[j] == (',' as u8));
        assert(full.subrange(sp.len() as int + 1, full.len() as int) =~= sr);
        lemma_sub_at(doc, i, full, sp.len() as int + 1, full.len() as int);
        lemma_parse_profiles_of_ser(doc, j + 1, rest);
        assert(parse_profiles(doc, j + 1) == Some((rest, i + full.len())));
        assert(j < doc.len());
        assert(seq![p0] + rest =~= ps);
    }
}

/// The round trip of persistence: the document written for any registry
/// reads back as exactly that registry, content and order alike. Saving
/// what was loaded therefore reproduces the loaded registry.
pub proof fn lemma_save_load_roundtrip(ps: Seq<ProfileView>)
    ensures
        parse_doc(ser_registry(ps)) == Some(ps),
{
    let doc = ser_registry(ps);
    if ps.len() == 0 {
        reveal_strlit("[]");
        assert(doc[0] == ('[' as u8) && doc[1] == (']' as u8));
        assert(ps =~= Seq::<ProfileView>::empty());
    } else {
        let body = ser_profiles(ps);
        reveal_strlit("{\"server_name\":\"");
        assert(ser_profile(ps[0]).len() >= tok_name().len());
        assert(ser_profiles(ps).len() >= ser_profile(ps[0]).len()) by {
            if ps.len() > 1 {
            }
        }
        assert(doc.len() == 2 + body.len());
        assert(doc[0] == ('[' as u8));
        assert(doc[1 + body.len() as int] == (']' as u8));
        assert(doc.subrange(1, 1 + body.len() as int) =~= body);
        assert(ser_profile(ps[0])[0] == tok_name()[0]);
        assert(doc[1] == body[0]);
        assert(body[0] == ser_profile(ps[0])[0]);
        assert(doc[1] == ('{' as u8));
        lemma_parse_profiles_of_ser(doc, 1, ps);
        assert(parse_profiles(doc, 1) == Some((ps, 1 + body.len() as int)));
        assert(doc.len() != 2);
    }
}

} // verus!
