//! Validators for the fields of a registry certificate. Each `check_*`
//! function returns a multi-line report with one line per criterion, each line
//! beginning `Ok: ` or `Err: `; the field is valid exactly when no line fails.
//! The `*_is_valid` functions give the same verdict as a single boolean.
//!
//! All checks work on the raw bytes of the submitted value. Character counts
//! are counts of UTF-8 characters; case handling (the uppercase check and the
//! folding done by the registry) covers the ASCII letters.

use vstd::prelude::*;

use crate::util::char_count;
use crate::util::count_byte;
use crate::util::count_chars;
use crate::util::count_byte_occurrences;
use crate::util::find_first;
use crate::util::find_last;
use crate::util::first_index_of;
use crate::util::is_upper_byte;
use crate::util::last_index_of;
use crate::util::lemma_first_index_of;
use crate::util::lemma_last_index_of;
use crate::util::slice_subrange_u8;
use crate::util::split_bytes;
use crate::util::split_bytes_exec;
use vstd::string::StringSliceAdditionalSpecFns;
use vstd::utf8::valid_utf8;

verus! {

/// Whether a byte string is syntactically valid JSON. Named after the result
/// of `serde_json::from_slice::<Value>`, which depends on the bytes alone.
pub uninterp spec fn json_syntax_ok(bytes: Seq<u8>) -> bool;

/// Relies on core::str::from_utf8: returns `Ok` exactly on well-formed UTF-8.
#[verifier::external_body]
fn utf8_is_valid(v: &[u8]) -> (r: bool)
    ensures
        r == valid_utf8(v@),
{
    core::str::from_utf8(v).is_ok()
}

/// Relies on serde_json::from_slice::<Value>: `Value` deserializes any
/// syntactically valid JSON document, so success depends on the bytes alone.
#[verifier::external_body]
fn json_is_valid(v: &[u8]) -> (r: bool)
    ensures
        r == json_syntax_ok(v@),
{
    serde_json::from_slice::<serde_json::Value>(v).is_ok()
}

/// One line of a criteria report.
pub open spec fn line_bytes(passed: bool, desc: &str) -> Seq<u8> {
    (if passed {
        "Ok: ".spec_bytes()
    } else {
        "Err: ".spec_bytes()
    }) + desc.spec_bytes() + "\n".spec_bytes()
}

/// Appends the bytes of `s` to `out`.
fn push_bytes(out: &mut Vec<u8>, s: &[u8])
    ensures
        final(out)@ == old(out)@ + s@,
{
    let mut i: usize = 0;
    while i < s.len()
        invariant
            i <= s@.len(),
            out@ == old(out)@ + s@.take(i as int),
        decreases s@.len() - i,
    {
        out.push(s[i]);
        proof {
            assert(old(out)@ + s@.take(i + 1 as int) =~= (old(out)@ + s@.take(i as int)).push(
                s@[i as int],
            ));
        }
        i = i + 1;
    }
    proof {
        assert(old(out)@ + s@.take(s@.len() as int) =~= old(out)@ + s@);
    }
}

/// Every criterion line is well-formed UTF-8: it is assembled from string
/// slices.
proof fn lemma_line_bytes_valid_utf8(passed: bool, desc: &str)
    ensures
        valid_utf8(line_bytes(passed, desc)),
{
    broadcast use vstd::utf8::encode_utf8_valid_utf8, vstd::utf8::valid_utf8_concat;

    assert(valid_utf8((if passed {
        "Ok: ".spec_bytes()
    } else {
        "Err: ".spec_bytes()
    }) + desc.spec_bytes()));
}

/// Appends one criterion line, `Ok: <desc>` or `Err: <desc>`, to a report.
fn append_line(out: &mut Vec<u8>, passed: bool, desc: &str)
    ensures
        final(out)@ == old(out)@ + line_bytes(passed, desc),
        valid_utf8(old(out)@) ==> valid_utf8(final(out)@),
{
    if passed {
        push_bytes(out, "Ok: ".as_bytes());
    } else {
        push_bytes(out, "Err: ".as_bytes());
    }
    push_bytes(out, desc.as_bytes());
    push_bytes(out, "\n".as_bytes());
    proof {
        broadcast use vstd::utf8::valid_utf8_concat;

        assert(out@ =~= old(out)@ + line_bytes(passed, desc));
        lemma_line_bytes_valid_utf8(passed, desc);
    }
}

// ---------------------------------------------------------------------------
// name
// ---------------------------------------------------------------------------
/// A valid owner name: well-formed UTF-8, at least one byte long. No further
/// assumptions are made about personal names.
pub open spec fn valid_name(name: Seq<u8>) -> bool {
    valid_utf8(name) && name.len() >= 1
}

/// The criteria report of `check_name`.
pub open spec fn spec_check_name(name: Seq<u8>) -> Seq<u8> {
    if !valid_utf8(name) {
        line_bytes(false, "Must be a valid string")
    } else {
        line_bytes(true, "Must be a valid string") + line_bytes(
            name.len() >= 1,
            "Must be at least 1 character long",
        )
    }
}

/// Reports, criterion by criterion, whether `name` is a valid owner name.
pub fn check_name(name: &[u8]) -> (r: Vec<u8>)
    ensures
        r@ == spec_check_name(name@),
        valid_utf8(r@),
{
    let mut r: Vec<u8> = Vec::new();
    if !utf8_is_valid(name) {
        append_line(&mut r, false, "Must be a valid string");
        return r;
    }
    append_line(&mut r, true, "Must be a valid string");
    append_line(&mut r, name.len() >= 1, "Must be at least 1 character long");
    r
}

/// The single-verdict form of `check_name`.
pub fn name_is_valid(name: &[u8]) -> (r: bool)
    ensures
        r == valid_name(name@),
{
    utf8_is_valid(name) && name.len() >= 1
}

// ---------------------------------------------------------------------------
// domain
// ---------------------------------------------------------------------------
/// A byte that may not appear in a domain name.
pub open spec fn forbidden_domain_byte(b: u8) -> bool {
    ||| b == 95  // '_'
    ||| b == 32  // ' '
    ||| b == 33  // '!'
    ||| b == 64  // '@'
    ||| b == 35  // '#'
    ||| b == 36  // '$'
    ||| b == 94  // '^'
    ||| b == 38  // '&'
    ||| b == 42  // '*'
    ||| b == 40  // '('
    ||| b == 41  // ')'
    ||| b == 10  // '\n'
}

/// Shorter than 64 characters.
pub open spec fn domain_len_ok(d: Seq<u8>) -> bool {
    char_count(d) < 64
}

/// None of the forbidden characters occur.
pub open spec fn domain_charset_ok(d: Seq<u8>) -> bool {
    forall|j: int| 0 <= j < d.len() ==> !forbidden_domain_byte(d[j])
}

/// No uppercase (ASCII) letters.
pub open spec fn domain_lowercase_ok(d: Seq<u8>) -> bool {
    forall|j: int| 0 <= j < d.len() ==> !is_upper_byte(d[j])
}

/// The top-level label, after the last dot, is 2 to 63 characters long.
pub open spec fn domain_tld_ok(d: Seq<u8>) -> bool {
    let i = last_index_of(d, 46);
    i >= 0 && 2 <= char_count(d.skip(i + 1)) <= 63
}

/// The subdomain, before the last dot, is at least one character long.
pub open spec fn domain_subdomain_ok(d: Seq<u8>) -> bool {
    let i = last_index_of(d, 46);
    i >= 0 && char_count(d.take(i)) >= 1
}

/// A valid domain name: well-formed UTF-8, shorter than 64 characters, free of
/// the forbidden characters, without uppercase ASCII letters, and split by its
/// last dot into a non-empty subdomain and a 2-63 character top-level label.
pub open spec fn valid_domain(d: Seq<u8>) -> bool {
    valid_utf8(d) && domain_len_ok(d) && domain_charset_ok(d) && domain_lowercase_ok(d)
        && domain_tld_ok(d) && domain_subdomain_ok(d)
}

/// The criteria report of `check_domain`.
pub open spec fn spec_check_domain(d: Seq<u8>) -> Seq<u8> {
    if !valid_utf8(d) {
        line_bytes(false, "Must be a valid string")
    } else {
        line_bytes(true, "Must be a valid string") + line_bytes(
            domain_len_ok(d),
            "Must be shorter than 64 characters",
        ) + line_bytes(
            domain_charset_ok(d),
            "Must not contain the characters: '_', ' ', '!', '@', '#', '$', '^', '&', '*', '(', ')', '\\n'",
        ) + line_bytes(domain_lowercase_ok(d), "Characters may not be uppercase") + line_bytes(
            domain_tld_ok(d),
            "TLD must be between 2 and 63 characters in length",
        ) + line_bytes(domain_subdomain_ok(d), "Subdomain must be at least 1 character long")
    }
}

/// Whether any forbidden character occurs in `d`.
fn domain_charset_check(d: &[u8]) -> (r: bool)
    ensures
        r == domain_charset_ok(d@),
{
    let mut i: usize = 0;
    while i < d.len()
        invariant
            i <= d@.len(),
            forall|j: int| 0 <= j < i ==> !forbidden_domain_byte(d@[j]),
        decreases d@.len() - i,
    {
        let b = d[i];
        if b == 95 || b == 32 || b == 33 || b == 64 || b == 35 || b == 36 || b == 94 || b == 38
            || b == 42 || b == 40 || b == 41 || b == 10 {
            return false;
        }
        i = i + 1;
    }
    true
}

/// Whether any uppercase ASCII letter occurs in `d`.
fn domain_lowercase_check(d: &[u8]) -> (r: bool)
    ensures
        r == domain_lowercase_ok(d@),
{
    let mut i: usize = 0;
    while i < d.len()
        invariant
            i <= d@.len(),
            forall|j: int| 0 <= j < i ==> !is_upper_byte(d@[j]),
        decreases d@.len() - i,
    {
        let b = d[i];
        if 65 <= b && b <= 90 {
            return false;
        }
        i = i + 1;
    }
    true
}

/// Reports, criterion by criterion, whether `domain` is a valid domain name.
pub fn check_domain(domain: &[u8]) -> (r: Vec<u8>)
    ensures
        r@ == spec_check_domain(domain@),
        valid_utf8(r@),
{
    let mut r: Vec<u8> = Vec::new();
    if !utf8_is_valid(domain) {
        append_line(&mut r, false, "Must be a valid string");
        return r;
    }
    append_line(&mut r, true, "Must be a valid string");
    let n_chars = count_chars(domain);
    append_line(&mut r, n_chars < 64, "Must be shorter than 64 characters");
    append_line(
        &mut r,
        domain_charset_check(domain),
        "Must not contain the characters: '_', ' ', '!', '@', '#', '$', '^', '&', '*', '(', ')', '\\n'",
    );
    append_line(&mut r, domain_lowercase_check(domain), "Characters may not be uppercase");
    let (tld_ok, sub_ok) = domain_label_checks(domain);
    append_line(&mut r, tld_ok, "TLD must be between 2 and 63 characters in length");
    append_line(&mut r, sub_ok, "Subdomain must be at least 1 character long");
    r
}

/// Checks the top-level label and the subdomain around the last dot.
fn domain_label_checks(domain: &[u8]) -> (r: (bool, bool))
    ensures
        r.0 == domain_tld_ok(domain@),
        r.1 == domain_subdomain_ok(domain@),
{
    match find_last(domain, 46) {
        None => (false, false),
        Some(i) => {
            let n = domain.len();
            proof {
                lemma_last_index_of(domain@, 46);
                assert(i < n);
            }
            let tld = slice_subrange_u8(domain, i + 1, n);
            let sub = slice_subrange_u8(domain, 0, i);
            proof {
                assert(domain@.subrange(i + 1 as int, domain@.len() as int) =~= domain@.skip(
                    i + 1 as int,
                ));
                assert(domain@.subrange(0, i as int) =~= domain@.take(i as int));
            }
            let tld_chars = count_chars(tld);
            let sub_chars = count_chars(sub);
            (2 <= tld_chars && tld_chars <= 63, sub_chars >= 1)
        },
    }
}

/// The single-verdict form of `check_domain`.
pub fn domain_is_valid(domain: &[u8]) -> (r: bool)
    ensures
        r == valid_domain(domain@),
{
    if !utf8_is_valid(domain) {
        return false;
    }
    let n_chars = count_chars(domain);
    let (tld_ok, sub_ok) = domain_label_checks(domain);
    n_chars < 64 && domain_charset_check(domain) && domain_lowercase_check(domain) && tld_ok
        && sub_ok
}

// ---------------------------------------------------------------------------
// ip address
// ---------------------------------------------------------------------------
/// An ASCII decimal digit.
pub open spec fn is_dec_digit(b: u8) -> bool {
    48 <= b <= 57
}

/// The number written by a string of decimal digits.
pub open spec fn dec_value(s: Seq<u8>) -> int
    decreases s.len(),
{
    if s.len() == 0 {
        0
    } else {
        dec_value(s.drop_last()) * 10 + (s.last() - 48)
    }
}

/// The digits of a number as `u8` parses one: everything after an optional
/// leading `+`.
pub open spec fn parse_digits(s: Seq<u8>) -> Seq<u8> {
    if s.len() > 0 && s[0] == 43 {
        s.drop_first()
    } else {
        s
    }
}

/// Whether a section parses as an integer in 0 to 255, the way `u8` parses
/// from a string: an optional leading `+`, then at least one digit, and a
/// value that fits.
pub open spec fn parse_u8_ok(s: Seq<u8>) -> bool {
    let digits = parse_digits(s);
    digits.len() >= 1 && (forall|j: int| 0 <= j < digits.len() ==> is_dec_digit(digits[j]))
        && dec_value(digits) <= 255
}

/// The value of a digit string is non-negative.
proof fn lemma_dec_value_nonneg(s: Seq<u8>)
    requires
        forall|j: int| 0 <= j < s.len() ==> is_dec_digit(s[j]),
    ensures
        dec_value(s) >= 0,
    decreases s.len(),
{
    if s.len() > 0 {
        lemma_dec_value_nonneg(s.drop_last());
    }
}

/// The value of a digit string never falls below the value of a prefix.
proof fn lemma_dec_value_prefix(s: Seq<u8>, i: int)
    requires
        0 <= i <= s.len(),
        forall|j: int| 0 <= j < s.len() ==> is_dec_digit(s[j]),
    ensures
        dec_value(s.take(i)) <= dec_value(s),
    decreases s.len(),
{
    if i == s.len() {
        assert(s.take(i) =~= s);
    } else {
        lemma_dec_value_prefix(s.drop_last(), i);
        assert(s.drop_last().take(i) =~= s.take(i));
        lemma_dec_value_nonneg(s.drop_last());
    }
}

/// Whether the byte string parses as a `u8`.
fn parse_u8_check(s: &[u8]) -> (r: bool)
    ensures
        r == parse_u8_ok(s@),
{
    let start: usize = if s.len() > 0 && s[0] == 43 {
        1
    } else {
        0
    };
    let ghost digits = s@.skip(start as int);
    proof {
        if start == 1 {
            assert(digits =~= s@.drop_first());
        } else {
            assert(digits =~= s@);
        }
    }
    if s.len() == start {
        return false;
    }
    let mut value: u16 = 0;
    let mut i: usize = start;
    while i < s.len()
        invariant
            start <= i <= s@.len(),
            start < s@.len(),
            digits == s@.skip(start as int),
            digits == parse_digits(s@),
            forall|j: int| 0 <= j < i - start ==> is_dec_digit(digits[j]),
            value == dec_value(digits.take(i - start)),
            value <= 255,
        decreases s@.len() - i,
    {
        let b = s[i];
        proof {
            assert(digits.take(i - start + 1).drop_last() =~= digits.take(i - start));
            assert(digits[i - start] == s@[i as int]);
        }
        if !(48 <= b && b <= 57) {
            return false;
        }
        let next = value * 10 + (b - 48) as u16;
        if next > 255 {
            proof {
                assert(dec_value(digits.take(i - start + 1)) == next);
                if forall|j: int| 0 <= j < digits.len() ==> is_dec_digit(digits[j]) {
                    lemma_dec_value_prefix(digits, i - start + 1);
                }
            }
            return false;
        }
        value = next;
        i = i + 1;
    }
    proof {
        assert(digits.take(digits.len() as int) =~= digits);
    }
    true
}

/// Exactly three dots.
pub open spec fn ip_dots_ok(ip: Seq<u8>) -> bool {
    count_byte(ip, 46) == 3
}

/// Every dot-separated section is non-empty.
pub open spec fn ip_sections_ok(ip: Seq<u8>) -> bool {
    forall|k: int| 0 <= k < split_bytes(ip, 46).len() ==> split_bytes(ip, 46)[k].len() >= 1
}

/// Every dot-separated section is a number in 0 to 255.
pub open spec fn ip_numbers_ok(ip: Seq<u8>) -> bool {
    forall|k: int| 0 <= k < split_bytes(ip, 46).len() ==> parse_u8_ok(split_bytes(ip, 46)[k])
}

/// A valid IPv4 address in dotted-decimal notation: well-formed UTF-8, three
/// dots, four non-empty sections, each a number in 0 to 255.
pub open spec fn valid_ip(ip: Seq<u8>) -> bool {
    valid_utf8(ip) && ip_dots_ok(ip) && ip_sections_ok(ip) && ip_numbers_ok(ip)
}

/// The criteria report of `check_ip`.
pub open spec fn spec_check_ip(ip: Seq<u8>) -> Seq<u8> {
    if !valid_utf8(ip) {
        line_bytes(false, "Must be a valid string")
    } else {
        line_bytes(true, "Must be a valid string") + line_bytes(
            ip_dots_ok(ip),
            "There must be three periods",
        ) + line_bytes(ip_sections_ok(ip), "There must be four sections (separated by periods)")
            + line_bytes(ip_numbers_ok(ip), "Numbers must be between 0 and 255")
    }
}

/// Checks that every section is non-empty and that every section is a number
/// in 0 to 255.
fn ip_section_checks(ip: &[u8]) -> (r: (bool, bool))
    ensures
        r.0 == ip_sections_ok(ip@),
        r.1 == ip_numbers_ok(ip@),
{
    let parts = split_bytes_exec(ip, 46);
    let ghost spec_parts = split_bytes(ip@, 46);
    let mut nonempty = true;
    let mut numbers = true;
    let mut k: usize = 0;
    while k < parts.len()
        invariant
            k <= parts@.len(),
            parts@.map_values(|p: Vec<u8>| p@) == spec_parts,
            spec_parts == split_bytes(ip@, 46),
            nonempty == (forall|j: int| 0 <= j < k ==> spec_parts[j].len() >= 1),
            numbers == (forall|j: int| 0 <= j < k ==> parse_u8_ok(spec_parts[j])),
        decreases parts@.len() - k,
    {
        let part_nonempty = parts[k].len() >= 1;
        let part_number = parse_u8_check(parts[k].as_slice());
        proof {
            assert(parts@.map_values(|p: Vec<u8>| p@)[k as int] == parts@[k as int]@);
        }
        nonempty = nonempty && part_nonempty;
        numbers = numbers && part_number;
        k = k + 1;
    }
    (nonempty, numbers)
}

/// Reports, criterion by criterion, whether `ip` is a valid IPv4 address.
pub fn check_ip(ip: &[u8]) -> (r: Vec<u8>)
    ensures
        r@ == spec_check_ip(ip@),
        valid_utf8(r@),
{
    let mut r: Vec<u8> = Vec::new();
    if !utf8_is_valid(ip) {
        append_line(&mut r, false, "Must be a valid string");
        return r;
    }
    append_line(&mut r, true, "Must be a valid string");
    let dots = count_byte_occurrences(ip, 46);
    append_line(&mut r, dots == 3, "There must be three periods");
    let (nonempty, numbers) = ip_section_checks(ip);
    append_line(&mut r, nonempty, "There must be four sections (separated by periods)");
    append_line(&mut r, numbers, "Numbers must be between 0 and 255");
    r
}

/// The single-verdict form of `check_ip`.
pub fn ip_is_valid(ip: &[u8]) -> (r: bool)
    ensures
        r == valid_ip(ip@),
{
    if !utf8_is_valid(ip) {
        return false;
    }
    let dots = count_byte_occurrences(ip, 46);
    let (nonempty, numbers) = ip_section_checks(ip);
    dots == 3 && nonempty && numbers
}

// ---------------------------------------------------------------------------
// info
// ---------------------------------------------------------------------------
/// A valid metadata blob: well-formed UTF-8 that parses as JSON.
pub open spec fn valid_info(info: Seq<u8>) -> bool {
    valid_utf8(info) && json_syntax_ok(info)
}

/// The criteria report of `check_info`.
pub open spec fn spec_check_info(info: Seq<u8>) -> Seq<u8> {
    if !valid_utf8(info) {
        line_bytes(false, "Must be a valid string")
    } else {
        line_bytes(true, "Must be a valid string") + line_bytes(
            json_syntax_ok(info),
            "Must be a valid json",
        )
    }
}

/// Reports, criterion by criterion, whether `info` is valid metadata.
pub fn check_info(info: &[u8]) -> (r: Vec<u8>)
    ensures
        r@ == spec_check_info(info@),
        valid_utf8(r@),
{
    let mut r: Vec<u8> = Vec::new();
    if !utf8_is_valid(info) {
        append_line(&mut r, false, "Must be a valid string");
        return r;
    }
    append_line(&mut r, true, "Must be a valid string");
    append_line(&mut r, json_is_valid(info), "Must be a valid json");
    r
}

/// The single-verdict form of `check_info`.
pub fn info_is_valid(info: &[u8]) -> (r: bool)
    ensures
        r == valid_info(info@),
{
    utf8_is_valid(info) && json_is_valid(info)
}

// ---------------------------------------------------------------------------
// public key
// ---------------------------------------------------------------------------
/// The bytes that begin a character of a UTF-8 string, in order: one per
/// character, so position `p` in this sequence stands for the `p`-th character.
pub open spec fn lead_bytes(s: Seq<u8>) -> Seq<u8>
    decreases s.len(),
{
    if s.len() == 0 {
        Seq::empty()
    } else if crate::util::is_cont_byte(s.last()) {
        lead_bytes(s.drop_last())
    } else {
        lead_bytes(s.drop_last()).push(s.last())
    }
}

/// An uppercase hexadecimal digit.
pub open spec fn is_hex_upper(b: u8) -> bool {
    is_dec_digit(b) || (65 <= b <= 70)
}

/// A separator position: every third character, so that characters come in
/// colon-separated pairs.
pub open spec fn is_sep_position(p: int) -> bool {
    p % 3 == 2
}

/// Every separator position holds a colon.
pub open spec fn sep_positions_ok(l: Seq<u8>) -> bool {
    forall|p: int| 0 <= p < l.len() && is_sep_position(p) ==> l[p] == 58
}

/// Every other position holds an uppercase hexadecimal digit.
pub open spec fn value_positions_ok(l: Seq<u8>) -> bool {
    forall|p: int| 0 <= p < l.len() && !is_sep_position(p) ==> is_hex_upper(l[p])
}

/// Every pair of digits is separated by a colon, and the key does not end on
/// a colon.
pub open spec fn key_separators_ok(s: Seq<u8>) -> bool {
    let l = lead_bytes(s);
    sep_positions_ok(l) && (l.len() > 0 ==> l.last() != 58)
}

/// Every character outside the separator positions is an uppercase
/// hexadecimal digit.
pub open spec fn key_values_ok(s: Seq<u8>) -> bool {
    value_positions_ok(lead_bytes(s))
}

proof fn lemma_sep_positions_push(l: Seq<u8>, b: u8)
    ensures
        sep_positions_ok(l.push(b)) == (sep_positions_ok(l) && (is_sep_position(l.len() as int)
            ==> b == 58)),
{
    let ln = l.push(b);
    if sep_positions_ok(l) && (is_sep_position(l.len() as int) ==> b == 58) {
        assert forall|p: int| 0 <= p < ln.len() && is_sep_position(p) implies ln[p] == 58 by {
            if p < l.len() {
                assert(l[p] == 58);
            }
        }
    }
    if !sep_positions_ok(l) {
        let p0 = choose|p: int| 0 <= p < l.len() && is_sep_position(p) && l[p] != 58;
        assert(ln[p0] != 58);
    }
}

proof fn lemma_value_positions_push(l: Seq<u8>, b: u8)
    ensures
        value_positions_ok(l.push(b)) == (value_positions_ok(l) && (!is_sep_position(
            l.len() as int,
        ) ==> is_hex_upper(b))),
{
    let ln = l.push(b);
    if value_positions_ok(l) && (!is_sep_position(l.len() as int) ==> is_hex_upper(b)) {
        assert forall|p: int| 0 <= p < ln.len() && !is_sep_position(p) implies is_hex_upper(
            ln[p],
        ) by {
            if p < l.len() {
                assert(is_hex_upper(l[p]));
            }
        }
    }
    if !value_positions_ok(l) {
        let p0 = choose|p: int| 0 <= p < l.len() && !is_sep_position(p) && !is_hex_upper(l[p]);
        assert(!is_hex_upper(ln[p0]));
    }
}

/// A valid public key: well-formed UTF-8, pairs of uppercase hexadecimal
/// digits separated by colons.
pub open spec fn valid_key(key: Seq<u8>) -> bool {
    valid_utf8(key) && key_separators_ok(key) && key_values_ok(key)
}

/// The criteria report of `check_key`.
pub open spec fn spec_check_key(key: Seq<u8>) -> Seq<u8> {
    if !valid_utf8(key) {
        line_bytes(false, "Must be a valid string")
    } else {
        line_bytes(true, "Must be a valid string") + line_bytes(
            key_separators_ok(key),
            "Every pair of hexadecimal digits must be separated by ':'",
        ) + line_bytes(
            key_values_ok(key),
            "Non-separators must be valid hexadecimal digits (uppercase hexadecimal)",
        )
    }
}

/// Checks the separator and digit criteria of a key in one pass.
fn key_format_checks(key: &[u8]) -> (r: (bool, bool))
    ensures
        r.0 == key_separators_ok(key@),
        r.1 == key_values_ok(key@),
{
    let mut sep_ok = true;
    let mut values_ok = true;
    let mut last_lead: u8 = 0;
    let mut p: usize = 0;
    let mut i: usize = 0;
    proof {
        assert(key@.take(0) =~= Seq::<u8>::empty());
    }
    while i < key.len()
        invariant
            i <= key@.len(),
            p == lead_bytes(key@.take(i as int)).len(),
            p <= i,
            sep_ok == sep_positions_ok(lead_bytes(key@.take(i as int))),
            values_ok == value_positions_ok(lead_bytes(key@.take(i as int))),
            p > 0 ==> last_lead == lead_bytes(key@.take(i as int)).last(),
        decreases key@.len() - i,
    {
        let b = key[i];
        proof {
            assert(key@.take(i + 1 as int).drop_last() =~= key@.take(i as int));
        }
        if !(128 <= b && b < 192) {
            proof {
                let l_old = lead_bytes(key@.take(i as int));
                assert(lead_bytes(key@.take(i + 1 as int)) == l_old.push(b));
                lemma_sep_positions_push(l_old, b);
                lemma_value_positions_push(l_old, b);
            }
            if p % 3 == 2 {
                sep_ok = sep_ok && b == 58;
            } else {
                values_ok = values_ok && ((48 <= b && b <= 57) || (65 <= b && b <= 70));
            }
            last_lead = b;
            p = p + 1;
        }
        i = i + 1;
    }
    proof {
        assert(key@.take(key@.len() as int) =~= key@);
    }
    if p > 0 && last_lead == 58 {
        sep_ok = false;
    }
    (sep_ok, values_ok)
}

/// Reports, criterion by criterion, whether `key` is a valid public key.
pub fn check_key(key: &[u8]) -> (r: Vec<u8>)
    ensures
        r@ == spec_check_key(key@),
        valid_utf8(r@),
{
    let mut r: Vec<u8> = Vec::new();
    if !utf8_is_valid(key) {
        append_line(&mut r, false, "Must be a valid string");
        return r;
    }
    append_line(&mut r, true, "Must be a valid string");
    let (sep_ok, values_ok) = key_format_checks(key);
    append_line(&mut r, sep_ok, "Every pair of hexadecimal digits must be separated by ':'");
    append_line(
        &mut r,
        values_ok,
        "Non-separators must be valid hexadecimal digits (uppercase hexadecimal)",
    );
    r
}

/// The single-verdict form of `check_key`.
pub fn key_is_valid(key: &[u8]) -> (r: bool)
    ensures
        r == valid_key(key@),
{
    if !utf8_is_valid(key) {
        return false;
    }
    let (sep_ok, values_ok) = key_format_checks(key);
    sep_ok && values_ok
}

// ---------------------------------------------------------------------------
// email
// ---------------------------------------------------------------------------
/// A byte allowed in the local part and domain of an email address: lowercase
/// ASCII alphanumeric, `-`, `_` or `.`.
pub open spec fn email_charset_byte(b: u8) -> bool {
    (97 <= b <= 122) || is_dec_digit(b) || b == 45 || b == 95 || b == 46
}

pub open spec fn email_charset_ok(s: Seq<u8>) -> bool {
    forall|j: int| 0 <= j < s.len() ==> email_charset_byte(s[j])
}

/// The form `prefix@domain`: the first `@` is neither at the start nor at the
/// end.
pub open spec fn email_form_ok(e: Seq<u8>) -> bool {
    let i = first_index_of(e, 64);
    0 < i < e.len() && i < e.len() - 1
}

/// A valid local part: exactly one `@`, and before it 1 to 63 bytes from the
/// allowed character set.
pub open spec fn email_prefix_ok(e: Seq<u8>) -> bool {
    count_byte(e, 64) == 1 && {
        let pre = e.take(first_index_of(e, 64));
        0 < pre.len() < 64 && email_charset_ok(pre)
    }
}

/// A valid email domain: exactly one `@`; after it, characters from the
/// allowed set forming `user.tld` with a 1-63 byte user label and a 2-6 byte
/// top-level label.
pub open spec fn email_domain_ok(e: Seq<u8>) -> bool {
    count_byte(e, 64) == 1 && {
        let rest = e.skip(first_index_of(e, 64) + 1);
        count_byte(rest, 46) == 1 && email_charset_ok(rest) && {
            let j = first_index_of(rest, 46);
            0 < j < 64 && 1 < rest.len() - j - 1 < 7
        }
    }
}

/// A valid email address: well-formed UTF-8 of the form `prefix@user.tld`
/// with the length and character-set limits of the parts.
pub open spec fn valid_email(e: Seq<u8>) -> bool {
    valid_utf8(e) && email_form_ok(e) && email_prefix_ok(e) && email_domain_ok(e)
}

/// The criteria report of `check_email`.
pub open spec fn spec_check_email(e: Seq<u8>) -> Seq<u8> {
    if !valid_utf8(e) {
        line_bytes(false, "Must be a valid string")
    } else {
        line_bytes(true, "Must be a valid string") + line_bytes(
            email_form_ok(e),
            "Must be in the form Prefix-@-Domain",
        ) + line_bytes(email_prefix_ok(e), "Prefix must be valid") + line_bytes(
            email_domain_ok(e),
            "Domain must be valid",
        )
    }
}

/// Whether every byte of `s` is from the allowed email character set.
fn email_charset_check(s: &[u8]) -> (r: bool)
    ensures
        r == email_charset_ok(s@),
{
    let mut i: usize = 0;
    while i < s.len()
        invariant
            i <= s@.len(),
            forall|j: int| 0 <= j < i ==> email_charset_byte(s@[j]),
        decreases s@.len() - i,
    {
        let b = s[i];
        if !((97 <= b && b <= 122) || (48 <= b && b <= 57) || b == 45 || b == 95 || b == 46) {
            return false;
        }
        i = i + 1;
    }
    true
}

/// Checks the prefix and domain criteria of an email address.
fn email_part_checks(e: &[u8]) -> (r: (bool, bool))
    ensures
        r.0 == email_prefix_ok(e@),
        r.1 == email_domain_ok(e@),
{
    let amps = count_byte_occurrences(e, 64);
    if amps != 1 {
        return (false, false);
    }
    let i = find_first(e, 64);
    let n = e.len();
    proof {
        lemma_first_index_of(e@, 64);
        if i == n {
            crate::util::lemma_count_byte_zero(e@, 64);
        }
        assert(i < n);
    }
    let pre = slice_subrange_u8(e, 0, i);
    let rest = slice_subrange_u8(e, i + 1, n);
    proof {
        assert(e@.subrange(0, i as int) =~= e@.take(i as int));
        assert(e@.subrange(i + 1 as int, e@.len() as int) =~= e@.skip(i + 1 as int));
    }
    let prefix_ok = pre.len() > 0 && pre.len() < 64 && email_charset_check(pre);
    let dots = count_byte_occurrences(rest, 46);
    let domain_ok: bool;
    if dots != 1 {
        domain_ok = false;
    } else {
        let j = find_first(rest, 46);
        proof {
            lemma_first_index_of(rest@, 46);
            if j == rest@.len() {
                crate::util::lemma_count_byte_zero(rest@, 46);
            }
            assert(j < rest@.len());
        }
        let top_len = rest.len() - j - 1;
        domain_ok = email_charset_check(rest) && j > 0 && j < 64 && top_len > 1 && top_len < 7;
    }
    (prefix_ok, domain_ok)
}

/// Reports, criterion by criterion, whether `email` is a valid address.
pub fn check_email(email: &[u8]) -> (r: Vec<u8>)
    ensures
        r@ == spec_check_email(email@),
        valid_utf8(r@),
{
    let mut r: Vec<u8> = Vec::new();
    if !utf8_is_valid(email) {
        append_line(&mut r, false, "Must be a valid string");
        return r;
    }
    append_line(&mut r, true, "Must be a valid string");
    let i = find_first(email, 64);
    proof {
        lemma_first_index_of(email@, 64);
    }
    let form_ok = i > 0 && i < email.len() && email.len() - i > 1;
    append_line(&mut r, form_ok, "Must be in the form Prefix-@-Domain");
    let (prefix_ok, domain_ok) = email_part_checks(email);
    append_line(&mut r, prefix_ok, "Prefix must be valid");
    append_line(&mut r, domain_ok, "Domain must be valid");
    r
}

/// The single-verdict form of `check_email`.
pub fn email_is_valid(email: &[u8]) -> (r: bool)
    ensures
        r == valid_email(email@),
{
    if !utf8_is_valid(email) {
        return false;
    }
    let i = find_first(email, 64);
    proof {
        lemma_first_index_of(email@, 64);
    }
    let form_ok = i > 0 && i < email.len() && email.len() - i > 1;
    let (prefix_ok, domain_ok) = email_part_checks(email);
    form_ok && prefix_ok && domain_ok
}

} // verus!
