//! Checks on subscription URLs.
use vstd::prelude::*;

use crate::error::XdevError;
use crate::text::{chars_of, copy_range, has_prefix, starts_with, str_eq, string_of, trim, trim_chars};

verus! {

pub open spec fn is_ascii_alphanumeric(c: char) -> bool {
    let u = c as u32;
    (48 <= u <= 57) || (65 <= u <= 90) || (97 <= u <= 122)
}

/// Whether `char::is_alphanumeric` holds of `c`.
pub uninterp spec fn alphanumeric(c: char) -> bool;

/// Relies on `char::is_alphanumeric`: the Unicode `Alphabetic` or `Numeric` property,
/// which among ASCII characters holds of the letters and digits alone.
#[verifier::external_body]
fn is_alphanumeric(c: char) -> (r: bool)
    ensures
        r == alphanumeric(c),
        (c as u32) < 128 ==> r == is_ascii_alphanumeric(c),
{
    c.is_alphanumeric()
}

/// `s` up to the first `c`, or all of `s` if it holds none.
pub open spec fn before_char(s: Seq<char>, c: char) -> Seq<char>
    decreases s.len(),
{
    if s.len() == 0 {
        s
    } else if s[0] == c {
        Seq::empty()
    } else {
        seq![s[0]] + before_char(s.drop_first(), c)
    }
}

fn prefix_before(s: &Vec<char>, c: char) -> (r: Vec<char>)
    ensures
        r@ == before_char(s@, c),
{
    let mut i: usize = 0;
    assert(s@.skip(0) =~= s@);
    assert(s@.take(0) + s@ =~= s@);
    while i < s.len() && s[i] != c
        invariant
            i <= s.len(),
            before_char(s@, c) == s@.take(i as int) + before_char(s@.skip(i as int), c),
        decreases s.len() - i,
    {
        let ghost t = s@.skip(i as int);
        assert(t.drop_first() =~= s@.skip(i as int + 1));
        assert(s@.take(i as int) + seq![s@[i as int]] =~= s@.take(i as int + 1));
        assert(s@.take(i as int) + (seq![s@[i as int]] + before_char(t.drop_first(), c))
            =~= s@.take(i as int + 1) + before_char(s@.skip(i as int + 1), c));
        i += 1;
    }
    assert(before_char(s@.skip(i as int), c) =~= Seq::<char>::empty());
    assert(s@.take(i as int) + Seq::<char>::empty() =~= s@.take(i as int));
    copy_range(s, 0, i)
}

/// Bytes that `c` takes in UTF-8, as `char::len_utf8` gives them.
pub open spec fn utf8_width(c: char) -> nat {
    let u = c as u32;
    if u < 0x80 {
        1
    } else if u < 0x800 {
        2
    } else if u < 0x10000 {
        3
    } else {
        4
    }
}

/// Bytes that `s` takes in UTF-8.
pub open spec fn utf8_len(s: Seq<char>) -> nat
    decreases s.len(),
{
    if s.len() == 0 {
        0
    } else {
        utf8_len(s.drop_last()) + utf8_width(s.last())
    }
}

/// A prefix takes no more bytes than the whole.
pub proof fn lemma_utf8_len_grows(s: Seq<char>, k: int)
    requires
        0 <= k <= s.len(),
    ensures
        utf8_len(s.take(k)) <= utf8_len(s),
    decreases s.len() - k,
{
    if k < s.len() {
        lemma_utf8_len_grows(s, k + 1);
        assert(s.take(k + 1).drop_last() =~= s.take(k));
    } else {
        assert(s.take(k) =~= s);
    }
}

/// Bytes that `c` takes in UTF-8.
pub fn utf8_width_exec(c: char) -> (r: usize)
    ensures
        r == utf8_width(c),
{
    let u = c as u32;
    if u < 0x80 {
        1
    } else if u < 0x800 {
        2
    } else if u < 0x10000 {
        3
    } else {
        4
    }
}

pub open spec fn host_char(c: char) -> bool {
    alphanumeric(c) || c == '.' || c == '-'
}

/// A plausible host name: at most 253 bytes of letters, digits, dots and hyphens, not
/// starting or ending with a dot, and holding a dot unless it is `localhost`.
pub open spec fn plausible_domain(d: Seq<char>) -> bool {
    &&& d.len() > 0
    &&& utf8_len(d) <= 253
    &&& forall|i: int| 0 <= i < d.len() ==> host_char(#[trigger] d[i])
    &&& d[0] != '.'
    &&& d.last() != '.'
    &&& (exists|i: int| 0 <= i < d.len() && #[trigger] d[i] == '.') || d == "localhost"@
}

/// Whether `domain` is a plausible host name. An IPv4 address meets these rules as it
/// stands; an IPv6 address holds `:`, which a domain taken from a URL here never does.
pub fn is_valid_domain_simple(domain: &str) -> (r: bool)
    ensures
        r == plausible_domain(domain@),
{
    let d = chars_of(domain);
    if d.len() == 0 {
        return false;
    }
    let mut bytes: usize = 0;
    let mut i: usize = 0;
    let mut has_dot = false;
    while i < d.len()
        invariant
            i <= d.len(),
            d@ == domain@,
            d.len() > 0,
            bytes as nat == utf8_len(d@.take(i as int)),
            bytes <= 253,
            forall|k: int| 0 <= k < i ==> host_char(#[trigger] d@[k]),
            has_dot <==> exists|k: int| 0 <= k < i && #[trigger] d@[k] == '.',
        decreases d.len() - i,
    {
        let c = d[i];
        proof {
            assert(d@.take(i as int + 1).drop_last() =~= d@.take(i as int));
            lemma_utf8_len_grows(d@, i as int + 1);
        }
        bytes = bytes + utf8_width_exec(c);
        if bytes > 253 {
            return false;
        }
        if !(is_alphanumeric(c) || c == '.' || c == '-') {
            return false;
        }
        if c == '.' {
            has_dot = true;
        }
        i += 1;
    }
    assert(d@.take(d.len() as int) =~= d@);
    if d[0] == '.' || d[d.len() - 1] == '.' {
        return false;
    }
    has_dot || str_eq(domain, "localhost")
}

/// What follows `http://` or `https://` at the start of `t`.
pub open spec fn after_scheme(t: Seq<char>) -> Option<Seq<char>> {
    if has_prefix(t, "https://"@) {
        Some(t.subrange(8, t.len() as int))
    } else if has_prefix(t, "http://"@) {
        Some(t.subrange(7, t.len() as int))
    } else {
        None
    }
}

/// The host of a URL's remainder after the scheme: up to the first `/`, then up to the
/// first `:`.
pub open spec fn url_host(rest: Seq<char>) -> Seq<char> {
    before_char(before_char(rest, '/'), ':')
}

/// An `http` or `https` URL, once trimmed, with a plausible host.
pub open spec fn url_ok(url: Seq<char>) -> bool {
    let t = trim(url);
    &&& t.len() > 0
    &&& after_scheme(t) is Some
    &&& after_scheme(t)->0.len() > 0
    &&& url_host(after_scheme(t)->0).len() > 0
    &&& plausible_domain(url_host(after_scheme(t)->0))
}

/// Checks that `url`, once trimmed, is an `http` or `https` URL with a plausible host.
pub fn validate_url(url: &str) -> (r: Result<(), XdevError>)
    ensures
        r is Ok <==> url_ok(url@),
        trim(url@).len() == 0 ==> r == Err::<(), XdevError>(XdevError::UrlEmpty),
        trim(url@).len() > 0 && after_scheme(trim(url@)) is None ==> r == Err::<(), XdevError>(
            XdevError::UrlInvalidProtocol,
        ),
        trim(url@).len() > 0 && after_scheme(trim(url@)) is Some ==> {
            let rest = after_scheme(trim(url@))->0;
            let host = url_host(rest);
            &&& rest.len() == 0 ==> r == Err::<(), XdevError>(XdevError::UrlMissingDomain)
            &&& rest.len() > 0 && host.len() == 0 ==> r == Err::<(), XdevError>(
                XdevError::UrlInvalidDomain,
            )
            &&& rest.len() > 0 && host.len() > 0 && !plausible_domain(host) ==> r is Err && r->Err_0
                is UrlInvalidDomainFormat && r->Err_0->UrlInvalidDomainFormat_0@ == host
            &&& rest.len() > 0 && host.len() > 0 && plausible_domain(host) ==> r is Ok
        },
{
    proof {
        reveal_strlit("https://");
        reveal_strlit("http://");
    }
    let u = chars_of(url);
    let t = trim_chars(&u);
    if t.len() == 0 {
        return Err(XdevError::UrlEmpty);
    }
    let https = chars_of("https://");
    let http = chars_of("http://");
    let rest = if starts_with(&t, &https) {
        copy_range(&t, 8, t.len())
    } else if starts_with(&t, &http) {
        copy_range(&t, 7, t.len())
    } else {
        return Err(XdevError::UrlInvalidProtocol);
    };
    if rest.len() == 0 {
        return Err(XdevError::UrlMissingDomain);
    }
    let part = prefix_before(&rest, '/');
    let host = prefix_before(&part, ':');
    if host.len() == 0 {
        return Err(XdevError::UrlInvalidDomain);
    }
    let h = string_of(&host);
    if !is_valid_domain_simple(h.as_str()) {
        return Err(XdevError::UrlInvalidDomainFormat(h));
    }
    Ok(())
}

} // verus!
