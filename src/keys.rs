//! Package keys, digests and download URLs of lockfile entries.
use crate::repository::PackageControl;
use crate::text::push_char;
use crate::version::is_alnum;
use vstd::prelude::*;
use vstd::string::*;

verus! {

/// The number of bytes of a character in UTF-8.
pub open spec fn utf8_len(c: char) -> nat {
    if (c as u32) < 0x80 {
        1
    } else if (c as u32) < 0x800 {
        2
    } else if (c as u32) < 0x10000 {
        3
    } else {
        4
    }
}

/// What a character becomes in a key: an ASCII letter or digit stays, any other character
/// becomes one `_` per byte of its UTF-8 encoding.
pub open spec fn key_piece(c: char) -> Seq<char> {
    if is_alnum(c) {
        seq![c]
    } else {
        Seq::new(utf8_len(c), |i: int| '_')
    }
}

pub open spec fn sanitize(s: Seq<char>) -> Seq<char>
    decreases s.len(),
{
    if s.len() == 0 {
        Seq::empty()
    } else {
        sanitize(s.drop_last()) + key_piece(s.last())
    }
}

/// `<arch>_<name>_<version>`, each part sanitized.
pub open spec fn package_key(arch: Seq<char>, name: Seq<char>, version: Seq<char>) -> Seq<char> {
    sanitize(arch) + seq!['_'] + sanitize(name) + seq!['_'] + sanitize(version)
}

/// Every character of a key is an ASCII letter, a digit or `_`.
pub open spec fn key_well_formed(k: Seq<char>) -> bool {
    forall|i: int| 0 <= i < k.len() ==> is_alnum(#[trigger] k[i]) || k[i] == '_'
}

proof fn lemma_sanitize_well_formed(s: Seq<char>)
    ensures
        key_well_formed(sanitize(s)),
    decreases s.len(),
{
    if s.len() > 0 {
        lemma_sanitize_well_formed(s.drop_last());
        let a = sanitize(s.drop_last());
        let p = key_piece(s.last());
        assert forall|i: int| 0 <= i < (a + p).len() implies is_alnum(#[trigger] (a + p)[i]) || (a + p)[i] == '_' by {
            if i >= a.len() {
                assert((a + p)[i] == p[i - a.len()]);
            } else {
                assert((a + p)[i] == a[i]);
            }
        }
    }
}

/// Keys are well formed.
pub proof fn lemma_package_key_well_formed(arch: Seq<char>, name: Seq<char>, version: Seq<char>)
    ensures
        key_well_formed(package_key(arch, name, version)),
{
    lemma_sanitize_well_formed(arch);
    lemma_sanitize_well_formed(name);
    lemma_sanitize_well_formed(version);
    let k = package_key(arch, name, version);
    let a = sanitize(arch);
    let n = sanitize(name);
    let v = sanitize(version);
    assert forall|i: int| 0 <= i < k.len() implies is_alnum(#[trigger] k[i]) || k[i] == '_' by {
        if i < a.len() {
            assert(k[i] == a[i]);
        } else if i == a.len() {
        } else if i < a.len() + 1 + n.len() {
            assert(k[i] == n[i - a.len() - 1]);
        } else if i == a.len() + 1 + n.len() {
        } else {
            assert(k[i] == v[i - a.len() - 2 - n.len()]);
        }
    }
}

/// The component with every byte of a character outside `[A-Za-z0-9]` replaced by `_`.
pub fn sanitize_package_key_component(component: &str) -> (r: String)
    ensures
        r@ == sanitize(component@),
{
    let n = component.unicode_len();
    let mut r = String::new();
    let mut i: usize = 0;
    while i < n
        invariant
            n == component@.len(),
            i <= n,
            r@ == sanitize(component@.subrange(0, i as int)),
        decreases n - i,
    {
        let c = component.get_char(i);
        let ghost before = r@;
        assert(component@.subrange(0, i + 1).drop_last() =~= component@.subrange(0, i as int));
        if ('a' <= c && c <= 'z') || ('A' <= c && c <= 'Z') || ('0' <= c && c <= '9') {
            push_char(&mut r, c);
            assert(r@ =~= before + key_piece(c));
        } else {
            let code = c as u32;
            let bytes: usize = if code < 0x80 { 1 } else if code < 0x800 { 2 } else if code < 0x10000 { 3 } else { 4 };
            let mut j: usize = 0;
            while j < bytes
                invariant
                    j <= bytes,
                    bytes == utf8_len(c),
                    !is_alnum(c),
                    r@ =~= before + Seq::new(j as nat, |k: int| '_'),
                decreases bytes - j,
            {
                push_char(&mut r, '_');
                j = j + 1;
            }
            assert(r@ =~= before + key_piece(c));
        }
        i = i + 1;
    }
    assert(component@.subrange(0, n as int) =~= component@);
    r
}

/// The key `<arch>_<name>_<version>` of a lockfile entry.
pub fn generate_package_key(architecture: &str, name: &str, version: &str) -> (r: String)
    ensures
        r@ == package_key(architecture@, name@, version@),
{
    let mut r = sanitize_package_key_component(architecture);
    push_char(&mut r, '_');
    let n = sanitize_package_key_component(name);
    r.append(n.as_str());
    push_char(&mut r, '_');
    let v = sanitize_package_key_component(version);
    r.append(v.as_str());
    r
}

pub open spec fn is_hex_digit(c: char) -> bool {
    ('0' <= c && c <= '9') || ('a' <= c && c <= 'f') || ('A' <= c && c <= 'F')
}

pub open spec fn lower_hex_digit(c: char) -> char {
    if c == 'A' { 'a' } else if c == 'B' { 'b' } else if c == 'C' { 'c' } else if c == 'D' { 'd' }
    else if c == 'E' { 'e' } else if c == 'F' { 'f' } else { c }
}

/// The hex text decoded and encoded again: an even number of hex digits, in lower case;
/// `None` for anything else.
pub open spec fn normalized_hex(s: Seq<char>) -> Option<Seq<char>> {
    if s.len() % 2 == 0 && forall|i: int| 0 <= i < s.len() ==> is_hex_digit(#[trigger] s[i]) {
        Some(s.map_values(|c: char| lower_hex_digit(c)))
    } else {
        None
    }
}

/// The lower-case form of a hex digest; `None` where it is not an even number of hex digits.
pub fn normalize_hex(s: &str) -> (r: Option<String>)
    ensures
        r matches Some(t) ==> normalized_hex(s@) == Some(t@),
        r is None ==> normalized_hex(s@) is None,
{
    let n = s.unicode_len();
    if n % 2 != 0 {
        return None;
    }
    let mut r = String::new();
    let mut i: usize = 0;
    while i < n
        invariant
            n == s@.len(),
            n % 2 == 0,
            i <= n,
            forall|k: int| 0 <= k < i ==> is_hex_digit(#[trigger] s@[k]),
            r@ == s@.subrange(0, i as int).map_values(|c: char| lower_hex_digit(c)),
        decreases n - i,
    {
        let c = s.get_char(i);
        if !(('0' <= c && c <= '9') || ('a' <= c && c <= 'f') || ('A' <= c && c <= 'F')) {
            return None;
        }
        let l = if c == 'A' { 'a' } else if c == 'B' { 'b' } else if c == 'C' { 'c' } else if c == 'D' { 'd' }
            else if c == 'E' { 'e' } else if c == 'F' { 'f' } else { c };
        push_char(&mut r, l);
        assert(s@.subrange(0, i + 1).map_values(|c: char| lower_hex_digit(c)) =~= s@.subrange(0, i as int).map_values(|c: char| lower_hex_digit(c)).push(lower_hex_digit(c)));
        i = i + 1;
    }
    assert(s@.subrange(0, n as int) =~= s@);
    Some(r)
}

/// The strongest digest a record carries: `(algorithm tag, hex text)`, trying SHA512, SHA384,
/// SHA256, SHA1 and MD5 in that order.
pub open spec fn strongest_digest(c: PackageControl) -> Option<(Seq<char>, Seq<char>)> {
    if c.sha512 is Some {
        Some((seq!['S', 'H', 'A', '5', '1', '2'], c.sha512.unwrap()@))
    } else if c.sha384 is Some {
        Some((seq!['S', 'H', 'A', '3', '8', '4'], c.sha384.unwrap()@))
    } else if c.sha256 is Some {
        Some((seq!['S', 'H', 'A', '2', '5', '6'], c.sha256.unwrap()@))
    } else if c.sha1 is Some {
        Some((seq!['S', 'H', 'A', '1'], c.sha1.unwrap()@))
    } else if c.md5sum is Some {
        Some((seq!['M', 'D', '5', 'S', 'u', 'm'], c.md5sum.unwrap()@))
    } else {
        None
    }
}

/// The strongest digest of a record, as its algorithm tag and its hex text.
pub fn pick_digest(c: &PackageControl) -> (r: Option<(String, &String)>)
    ensures
        match r {
            Some((a, h)) => strongest_digest(*c) == Some((a@, h@)),
            None => strongest_digest(*c) is None,
        },
{
    proof {
        reveal_strlit("SHA512");
        reveal_strlit("SHA384");
        reveal_strlit("SHA256");
        reveal_strlit("SHA1");
        reveal_strlit("MD5Sum");
    }
    match &c.sha512 {
        Some(h) => return Some(("SHA512".to_string(), h)),
        None => {},
    }
    match &c.sha384 {
        Some(h) => return Some(("SHA384".to_string(), h)),
        None => {},
    }
    match &c.sha256 {
        Some(h) => return Some(("SHA256".to_string(), h)),
        None => {},
    }
    match &c.sha1 {
        Some(h) => return Some(("SHA1".to_string(), h)),
        None => {},
    }
    match &c.md5sum {
        Some(h) => Some(("MD5Sum".to_string(), h)),
        None => None,
    }
}

/// The text without its trailing slashes.
pub open spec fn trim_slashes(s: Seq<char>) -> Seq<char>
    decreases s.len(),
{
    if s.len() > 0 && s.last() == '/' {
        trim_slashes(s.drop_last())
    } else {
        s
    }
}

pub open spec fn strip_dot_slash(f: Seq<char>) -> Seq<char> {
    if f.len() >= 2 && f[0] == '.' && f[1] == '/' {
        f.subrange(2, f.len() as int)
    } else {
        f
    }
}

/// The absolute URL of a file of a repository: the base without trailing slashes, then the
/// file name (absolute), or `/` and the file name without a leading `./` (relative).
pub open spec fn download_url_of(base: Seq<char>, filename: Seq<char>) -> Seq<char> {
    let b = trim_slashes(base);
    if filename.len() > 0 && filename[0] == '/' {
        b + filename
    } else {
        b + seq!['/'] + strip_dot_slash(filename)
    }
}

/// The download URL of `filename` in the repository at `base`.
pub fn compose_download_url(base: &str, filename: &str) -> (r: String)
    ensures
        r@ == download_url_of(base@, filename@),
{
    let mut n = base.unicode_len();
    assert(base@.subrange(0, n as int) =~= base@);
    while n > 0 && base.get_char(n - 1) == '/'
        invariant
            n <= base@.len(),
            trim_slashes(base@) == trim_slashes(base@.subrange(0, n as int)),
        decreases n,
    {
        assert(base@.subrange(0, n as int).drop_last() =~= base@.subrange(0, n - 1));
        n = n - 1;
    }
    assert(trim_slashes(base@.subrange(0, n as int)) == base@.subrange(0, n as int));
    let mut r = base.substring_char(0, n).to_string();
    let m = filename.unicode_len();
    if m > 0 && filename.get_char(0) == '/' {
        r.append(filename);
    } else {
        push_char(&mut r, '/');
        if m >= 2 && filename.get_char(0) == '.' && filename.get_char(1) == '/' {
            r.append(filename.substring_char(2, m));
        } else {
            r.append(filename);
        }
    }
    r
}

} // verus!
