//! Parsing of remote repository URLs into `{host, owner, name}`.
//!
//! Three syntaxes are accepted: `https://[user@]host[:port]/owner/name`,
//! `ssh://[user@]host[:port]/owner/name`, and the scp-like shorthand
//! `user@host:owner/name`. A trailing `.git` marker on the name is stripped.
//! Anything else is rejected with a typed error, never a panic.

use vstd::prelude::*;
use crate::bytes::AT_SIGN;
use crate::bytes::COLON;
use crate::bytes::DOT;
use crate::bytes::LOWER_G;
use crate::bytes::LOWER_H;
use crate::bytes::LOWER_I;
use crate::bytes::LOWER_P;
use crate::bytes::LOWER_S;
use crate::bytes::LOWER_T;
use crate::bytes::SLASH;
use crate::bytes::contains_byte;
use crate::bytes::copy_bytes;
use crate::bytes::ends_with_spec;
use crate::bytes::find_byte;
use crate::bytes::first_index;
use crate::bytes::lemma_first_index;
use crate::bytes::lemma_first_index_absent;
use crate::bytes::lemma_first_index_unique;
use crate::bytes::starts_with_bytes;
use crate::bytes::starts_with_spec;
use crate::bytes::sub_bytes;

verus! {

/// Why a remote URL was rejected.
#[derive(Clone, Copy, Debug, PartialEq, Eq, Structural)]
pub enum ParseError {
    /// The string fits none of the three accepted syntaxes.
    UnsupportedSyntax,
    /// The host part between the scheme (or the `@`) and the path is empty.
    EmptyHost,
    /// The path is not exactly two non-empty segments `owner/name`.
    MalformedPath,
}

/// A remote location, normalized out of any of the accepted URL syntaxes.
pub struct ParsedLocation {
    pub host: Vec<u8>,
    pub owner: Vec<u8>,
    pub name: Vec<u8>,
}

/// The mathematical value of a `ParsedLocation`.
#[verifier::ext_equal]
pub struct LocationModel {
    pub host: Seq<u8>,
    pub owner: Seq<u8>,
    pub name: Seq<u8>,
}

impl View for ParsedLocation {
    type V = LocationModel;

    open spec fn view(&self) -> LocationModel {
        LocationModel { host: self.host@, owner: self.owner@, name: self.name@ }
    }
}

/// The scheme marker of an HTTPS remote, `https://`.
pub open spec fn https_scheme() -> Seq<u8> {
    seq![LOWER_H, LOWER_T, LOWER_T, LOWER_P, LOWER_S, COLON, SLASH, SLASH]
}

/// The scheme marker of an SSH remote, `ssh://`.
pub open spec fn ssh_scheme() -> Seq<u8> {
    seq![LOWER_S, LOWER_S, LOWER_H, COLON, SLASH, SLASH]
}

/// The trailing repository-suffix marker, `.git`.
pub open spec fn repo_suffix() -> Seq<u8> {
    seq![DOT, LOWER_G, LOWER_I, LOWER_T]
}

/// `s` with every trailing `.git` marker removed.
pub open spec fn strip_repo_suffix_spec(s: Seq<u8>) -> Seq<u8>
    decreases s.len(),
{
    if ends_with_spec(s, repo_suffix()) {
        strip_repo_suffix_spec(s.subrange(0, s.len() - 4))
    } else {
        s
    }
}

/// The invariant of every successfully parsed location: all three parts are
/// non-empty, owner and name hold no path separator, and the name retains no
/// trailing repository-suffix marker.
pub open spec fn wf_location(m: LocationModel) -> bool {
    &&& m.host.len() > 0
    &&& m.owner.len() > 0
    &&& m.name.len() > 0
    &&& !contains_byte(m.owner, SLASH)
    &&& !contains_byte(m.name, SLASH)
    &&& !ends_with_spec(m.name, repo_suffix())
}

/// Splits `p` into exactly two non-empty segments `owner/name` and joins them
/// with `host`; the name's trailing `.git` marker is stripped.
pub open spec fn spec_parse_path(host: Seq<u8>, p: Seq<u8>) -> Result<LocationModel, ParseError> {
    let sl = first_index(p, SLASH);
    if sl == p.len() {
        Err(ParseError::MalformedPath)
    } else {
        let owner = p.subrange(0, sl);
        let rest = p.subrange(sl + 1, p.len() as int);
        if owner.len() == 0 {
            Err(ParseError::MalformedPath)
        } else if rest.len() == 0 || contains_byte(rest, SLASH) {
            Err(ParseError::MalformedPath)
        } else {
            let name = strip_repo_suffix_spec(rest);
            if name.len() == 0 {
                Err(ParseError::MalformedPath)
            } else {
                Ok(LocationModel { host, owner, name })
            }
        }
    }
}

/// Parses `[user@]host[:port]/owner/name`, the part of an HTTPS or SSH URL
/// after its scheme marker: credentials before `@` and a port after `:` are
/// dropped, the rest of the authority is the host.
pub open spec fn spec_parse_authority_path(r: Seq<u8>) -> Result<LocationModel, ParseError> {
    let sl = first_index(r, SLASH);
    if sl == r.len() {
        Err(ParseError::MalformedPath)
    } else {
        let authority = r.subrange(0, sl);
        let p = r.subrange(sl + 1, r.len() as int);
        let hostport = if contains_byte(authority, AT_SIGN) {
            authority.subrange(first_index(authority, AT_SIGN) + 1, authority.len() as int)
        } else {
            authority
        };
        let host = hostport.subrange(0, first_index(hostport, COLON));
        if host.len() == 0 {
            Err(ParseError::EmptyHost)
        } else {
            spec_parse_path(host, p)
        }
    }
}

/// Parses the scp-like shorthand `user@host:owner/name`.
pub open spec fn spec_parse_scp(s: Seq<u8>) -> Result<LocationModel, ParseError> {
    let at = first_index(s, AT_SIGN);
    if at == s.len() || at == 0 {
        Err(ParseError::UnsupportedSyntax)
    } else {
        let user = s.subrange(0, at);
        if contains_byte(user, SLASH) || contains_byte(user, COLON) {
            Err(ParseError::UnsupportedSyntax)
        } else {
            let r = s.subrange(at + 1, s.len() as int);
            let co = first_index(r, COLON);
            if co == r.len() {
                Err(ParseError::UnsupportedSyntax)
            } else {
                let host = r.subrange(0, co);
                if contains_byte(host, SLASH) {
                    Err(ParseError::UnsupportedSyntax)
                } else if host.len() == 0 {
                    Err(ParseError::EmptyHost)
                } else {
                    spec_parse_path(host, r.subrange(co + 1, r.len() as int))
                }
            }
        }
    }
}

/// What `parse` returns on any input: the accepted grammar, as one function.
pub open spec fn spec_parse(s: Seq<u8>) -> Result<LocationModel, ParseError> {
    if starts_with_spec(s, https_scheme()) {
        spec_parse_authority_path(s.subrange(8, s.len() as int))
    } else if starts_with_spec(s, ssh_scheme()) {
        spec_parse_authority_path(s.subrange(6, s.len() as int))
    } else {
        spec_parse_scp(s)
    }
}

/// `r` is exactly what `m` prescribes: the same location, or the same error.
pub open spec fn result_matches(
    m: Result<LocationModel, ParseError>,
    r: Result<ParsedLocation, ParseError>,
) -> bool {
    match m {
        Ok(loc) => r matches Ok(got) && got@ == loc,
        Err(e) => r matches Err(got) && got == e,
    }
}

/// `v` with every trailing `.git` marker removed.
pub fn strip_repo_suffix(v: &Vec<u8>) -> (r: Vec<u8>)
    ensures
        r@ == strip_repo_suffix_spec(v@),
{
    let mut cur = copy_bytes(v);
    loop
        invariant
            strip_repo_suffix_spec(cur@) == strip_repo_suffix_spec(v@),
        ensures
            cur@ == strip_repo_suffix_spec(v@),
        decreases cur@.len(),
    {
        let n = cur.len();
        if n >= 4 && cur[n - 4] == DOT && cur[n - 3] == LOWER_G && cur[n - 2] == LOWER_I
            && cur[n - 1] == LOWER_T {
            let ghost before = cur@;
            proof {
                assert(before.subrange(n - 4, n as int) =~= repo_suffix());
            }
            let _ = cur.pop();
            let _ = cur.pop();
            let _ = cur.pop();
            let _ = cur.pop();
            proof {
                assert(cur@ =~= before.subrange(0, n - 4));
                assert(ends_with_spec(before, repo_suffix()));
            }
        } else {
            proof {
                if ends_with_spec(cur@, repo_suffix()) {
                    let tail = cur@.subrange(cur@.len() - 4, cur@.len() as int);
                    assert(cur@[cur@.len() - 4] == tail[0]);
                    assert(cur@[cur@.len() - 3] == tail[1]);
                    assert(cur@[cur@.len() - 2] == tail[2]);
                    assert(cur@[cur@.len() - 1] == tail[3]);
                }
            }
            break;
        }
    }
    cur
}

/// The stripped string is an initial run of the input and retains no marker.
pub proof fn lemma_strip_repo_suffix(s: Seq<u8>)
    ensures
        strip_repo_suffix_spec(s).len() <= s.len(),
        strip_repo_suffix_spec(s) == s.subrange(0, strip_repo_suffix_spec(s).len() as int),
        !ends_with_spec(strip_repo_suffix_spec(s), repo_suffix()),
    decreases s.len(),
{
    if ends_with_spec(s, repo_suffix()) {
        let s2 = s.subrange(0, s.len() - 4);
        lemma_strip_repo_suffix(s2);
        let l = strip_repo_suffix_spec(s2).len();
        assert(s2.subrange(0, l as int) =~= s.subrange(0, l as int));
    } else {
        assert(s.subrange(0, s.len() as int) =~= s);
    }
}

/// A location out of `spec_parse_path` keeps the parsing invariant.
pub proof fn lemma_parse_path_wf(host: Seq<u8>, p: Seq<u8>)
    requires
        host.len() > 0,
    ensures
        spec_parse_path(host, p) matches Ok(m) ==> wf_location(m) && m.host == host,
{
    let sl = first_index(p, SLASH);
    lemma_first_index(p, SLASH);
    if sl < p.len() {
        let owner = p.subrange(0, sl);
        let rest = p.subrange(sl + 1, p.len() as int);
        if owner.len() > 0 && rest.len() > 0 && !contains_byte(rest, SLASH) {
            assert forall|k: int| 0 <= k < owner.len() implies owner[k] != SLASH by {
                assert(owner[k] == p[k]);
            }
            lemma_first_index_absent(owner, SLASH);
            lemma_first_index(rest, SLASH);
            let name = strip_repo_suffix_spec(rest);
            lemma_strip_repo_suffix(rest);
            assert forall|k: int| 0 <= k < name.len() implies name[k] != SLASH by {
                assert(name[k] == rest.subrange(0, name.len() as int)[k]);
                assert(name[k] == rest[k]);
            }
            lemma_first_index_absent(name, SLASH);
        }
    }
}

/// A location out of `spec_parse_authority_path` keeps the parsing invariant.
pub proof fn lemma_parse_authority_wf(r: Seq<u8>)
    ensures
        spec_parse_authority_path(r) matches Ok(m) ==> wf_location(m),
{
    let sl = first_index(r, SLASH);
    lemma_first_index(r, SLASH);
    if sl < r.len() {
        let authority = r.subrange(0, sl);
        let p = r.subrange(sl + 1, r.len() as int);
        let hostport = if contains_byte(authority, AT_SIGN) {
            authority.subrange(first_index(authority, AT_SIGN) + 1, authority.len() as int)
        } else {
            authority
        };
        lemma_first_index(authority, AT_SIGN);
        lemma_first_index(hostport, COLON);
        let host = hostport.subrange(0, first_index(hostport, COLON));
        if host.len() > 0 {
            lemma_parse_path_wf(host, p);
        }
    }
}

/// A location out of `spec_parse_scp` keeps the parsing invariant.
pub proof fn lemma_parse_scp_wf(s: Seq<u8>)
    ensures
        spec_parse_scp(s) matches Ok(m) ==> wf_location(m),
{
    let at = first_index(s, AT_SIGN);
    lemma_first_index(s, AT_SIGN);
    if 0 < at < s.len() {
        let r = s.subrange(at + 1, s.len() as int);
        let co = first_index(r, COLON);
        lemma_first_index(r, COLON);
        if co < r.len() {
            let host = r.subrange(0, co);
            if host.len() > 0 {
                lemma_parse_path_wf(host, r.subrange(co + 1, r.len() as int));
            }
        }
    }
}

/// Every location that `spec_parse` accepts keeps the parsing invariant.
pub proof fn lemma_parse_wf(s: Seq<u8>)
    ensures
        spec_parse(s) matches Ok(m) ==> wf_location(m),
{
    if starts_with_spec(s, https_scheme()) {
        lemma_parse_authority_wf(s.subrange(8, s.len() as int));
    } else if starts_with_spec(s, ssh_scheme()) {
        lemma_parse_authority_wf(s.subrange(6, s.len() as int));
    } else {
        lemma_parse_scp_wf(s);
    }
}

/// A piece with none of the structural characters of the URL syntaxes: it can
/// stand verbatim as host, owner, name or user in any of them.
pub open spec fn plain_piece(s: Seq<u8>) -> bool {
    &&& s.len() > 0
    &&& !contains_byte(s, SLASH)
    &&& !contains_byte(s, COLON)
    &&& !contains_byte(s, AT_SIGN)
}

/// The HTTPS form of a location.
pub open spec fn format_https(h: Seq<u8>, o: Seq<u8>, n: Seq<u8>) -> Seq<u8> {
    https_scheme() + h + seq![SLASH] + o + seq![SLASH] + n
}

/// The SSH form of a location.
pub open spec fn format_ssh(h: Seq<u8>, o: Seq<u8>, n: Seq<u8>) -> Seq<u8> {
    ssh_scheme() + h + seq![SLASH] + o + seq![SLASH] + n
}

/// The scp-like form of a location.
pub open spec fn format_scp(u: Seq<u8>, h: Seq<u8>, o: Seq<u8>, n: Seq<u8>) -> Seq<u8> {
    u + seq![AT_SIGN] + h + seq![COLON] + o + seq![SLASH] + n
}

/// A piece free of `c` holds `c` at no position.
proof fn lemma_no_byte(s: Seq<u8>, c: u8)
    requires
        !contains_byte(s, c),
    ensures
        forall|k: int| 0 <= k < s.len() ==> s[k] != c,
{
    lemma_first_index(s, c);
}

/// Parsing the path `o/n` out of plain pieces yields them back, the name
/// stripped of its trailing marker.
proof fn lemma_path_body(h: Seq<u8>, o: Seq<u8>, n: Seq<u8>)
    requires
        h.len() > 0,
        plain_piece(o),
        plain_piece(n),
        strip_repo_suffix_spec(n).len() > 0,
    ensures
        spec_parse_path(h, o + seq![SLASH] + n) == Ok::<LocationModel, ParseError>(
            LocationModel { host: h, owner: o, name: strip_repo_suffix_spec(n) },
        ),
{
    let p = o + seq![SLASH] + n;
    lemma_no_byte(o, SLASH);
    lemma_no_byte(n, SLASH);
    assert(p[o.len() as int] == SLASH);
    assert forall|k: int| 0 <= k < o.len() implies p[k] != SLASH by {
        assert(p[k] == o[k]);
    }
    lemma_first_index_unique(p, SLASH, o.len() as int);
    assert(p.subrange(0, o.len() as int) =~= o);
    let rest = p.subrange(o.len() as int + 1, p.len() as int);
    assert(rest =~= n);
}

/// Parsing `h/o/n` as an authority plus path yields the pieces back.
proof fn lemma_authority_body(h: Seq<u8>, o: Seq<u8>, n: Seq<u8>)
    requires
        plain_piece(h),
        plain_piece(o),
        plain_piece(n),
        strip_repo_suffix_spec(n).len() > 0,
    ensures
        spec_parse_authority_path(h + seq![SLASH] + o + seq![SLASH] + n) == Ok::<LocationModel, ParseError>(
            LocationModel { host: h, owner: o, name: strip_repo_suffix_spec(n) },
        ),
{
    let body = h + seq![SLASH] + o + seq![SLASH] + n;
    lemma_no_byte(h, SLASH);
    assert(body[h.len() as int] == SLASH);
    assert forall|k: int| 0 <= k < h.len() implies body[k] != SLASH by {
        assert(body[k] == h[k]);
    }
    lemma_first_index_unique(body, SLASH, h.len() as int);
    let authority = body.subrange(0, h.len() as int);
    assert(authority =~= h);
    lemma_first_index(h, COLON);
    assert(h.subrange(0, first_index(h, COLON)) =~= h);
    let p = body.subrange(h.len() as int + 1, body.len() as int);
    assert(p =~= o + seq![SLASH] + n);
    lemma_path_body(h, o, n);
}

/// Parsing the HTTPS form of plain pieces yields them back.
pub proof fn lemma_round_trip_https(h: Seq<u8>, o: Seq<u8>, n: Seq<u8>)
    requires
        plain_piece(h),
        plain_piece(o),
        plain_piece(n),
        strip_repo_suffix_spec(n).len() > 0,
    ensures
        spec_parse(format_https(h, o, n)) == Ok::<LocationModel, ParseError>(
            LocationModel { host: h, owner: o, name: strip_repo_suffix_spec(n) },
        ),
{
    let s = format_https(h, o, n);
    assert(s.subrange(0, 8) =~= https_scheme());
    assert(s.subrange(8, s.len() as int) =~= h + seq![SLASH] + o + seq![SLASH] + n);
    lemma_authority_body(h, o, n);
}

/// Parsing the SSH form of plain pieces yields them back.
pub proof fn lemma_round_trip_ssh(h: Seq<u8>, o: Seq<u8>, n: Seq<u8>)
    requires
        plain_piece(h),
        plain_piece(o),
        plain_piece(n),
        strip_repo_suffix_spec(n).len() > 0,
    ensures
        spec_parse(format_ssh(h, o, n)) == Ok::<LocationModel, ParseError>(
            LocationModel { host: h, owner: o, name: strip_repo_suffix_spec(n) },
        ),
{
    let s = format_ssh(h, o, n);
    lemma_no_byte(h, COLON);
    assert(s[3] == COLON);
    if starts_with_spec(s, https_scheme()) {
        assert(s.subrange(0, 8)[3] == s[3]);
        assert(s[3] == https_scheme()[3]);
        assert(false);
    }
    assert(s.subrange(0, 6) =~= ssh_scheme());
    assert(s.subrange(6, s.len() as int) =~= h + seq![SLASH] + o + seq![SLASH] + n);
    lemma_authority_body(h, o, n);
}

/// Parsing the scp-like form of plain pieces yields them back; the user part
/// before the `@` is dropped.
pub proof fn lemma_round_trip_scp(u: Seq<u8>, h: Seq<u8>, o: Seq<u8>, n: Seq<u8>)
    requires
        plain_piece(u),
        plain_piece(h),
        plain_piece(o),
        plain_piece(n),
        strip_repo_suffix_spec(n).len() > 0,
    ensures
        spec_parse(format_scp(u, h, o, n)) == Ok::<LocationModel, ParseError>(
            LocationModel { host: h, owner: o, name: strip_repo_suffix_spec(n) },
        ),
{
    let s = format_scp(u, h, o, n);
    let pa = u.len() as int;
    let pc = pa + 1 + h.len();
    let ps = pc + 1 + o.len();
    lemma_no_byte(u, SLASH);
    lemma_no_byte(u, COLON);
    lemma_no_byte(u, AT_SIGN);
    lemma_no_byte(h, SLASH);
    lemma_no_byte(h, COLON);
    lemma_no_byte(o, SLASH);
    lemma_no_byte(o, COLON);
    lemma_no_byte(n, SLASH);
    lemma_no_byte(n, COLON);
    assert(s.len() == u.len() + h.len() + o.len() + n.len() + 3);
    assert(s[pa] == AT_SIGN);
    assert(s[pc] == COLON);
    assert(s[ps] == SLASH);
    assert forall|k: int| 0 <= k < s.len() && s[k] == COLON implies k == pc by {
        if k < pa {
            assert(s[k] == u[k]);
        } else if pa < k < pc {
            assert(s[k] == h[k - pa - 1]);
        } else if pc < k < ps {
            assert(s[k] == o[k - pc - 1]);
        } else if ps < k {
            assert(s[k] == n[k - ps - 1]);
        }
    }
    assert forall|k: int| 0 <= k < s.len() && s[k] == SLASH implies k == ps by {
        if k < pa {
            assert(s[k] == u[k]);
        } else if pa < k < pc {
            assert(s[k] == h[k - pa - 1]);
        } else if pc < k < ps {
            assert(s[k] == o[k - pc - 1]);
        } else if ps < k {
            assert(s[k] == n[k - ps - 1]);
        }
    }
    if starts_with_spec(s, https_scheme()) {
        assert(s.subrange(0, 8)[5] == s[5]);
        assert(s[5] == https_scheme()[5]);
        assert(s.subrange(0, 8)[6] == s[6]);
        assert(s[6] == https_scheme()[6]);
        assert(5int == pc);
        assert(6int == ps);
        assert(false);
    }
    if starts_with_spec(s, ssh_scheme()) {
        assert(s.subrange(0, 6)[3] == s[3]);
        assert(s[3] == ssh_scheme()[3]);
        assert(s.subrange(0, 6)[4] == s[4]);
        assert(s[4] == ssh_scheme()[4]);
        assert(3int == pc);
        assert(4int == ps);
        assert(false);
    }
    assert forall|k: int| 0 <= k < pa implies s[k] != AT_SIGN by {
        assert(s[k] == u[k]);
    }
    lemma_first_index_unique(s, AT_SIGN, pa);
    let r = s.subrange(pa + 1, s.len() as int);
    assert(r =~= h + seq![COLON] + o + seq![SLASH] + n);
    let user = s.subrange(0, pa);
    assert(user =~= u);
    assert(r[h.len() as int] == COLON);
    assert forall|k: int| 0 <= k < h.len() implies r[k] != COLON by {
        assert(r[k] == h[k]);
    }
    lemma_first_index_unique(r, COLON, h.len() as int);
    let host = r.subrange(0, h.len() as int);
    assert(host =~= h);
    let p = r.subrange(h.len() as int + 1, r.len() as int);
    assert(p =~= o + seq![SLASH] + n);
    lemma_path_body(h, o, n);
}

/// Round trip: a URL formatted out of plain pieces whose name carries no
/// trailing repository marker parses back to exactly those pieces, under
/// every supported syntax.
pub proof fn lemma_round_trip_exact(u: Seq<u8>, h: Seq<u8>, o: Seq<u8>, n: Seq<u8>)
    requires
        plain_piece(u),
        plain_piece(h),
        plain_piece(o),
        plain_piece(n),
        !ends_with_spec(n, repo_suffix()),
    ensures
        spec_parse(format_https(h, o, n)) == Ok::<LocationModel, ParseError>(LocationModel { host: h, owner: o, name: n }),
        spec_parse(format_ssh(h, o, n)) == Ok::<LocationModel, ParseError>(LocationModel { host: h, owner: o, name: n }),
        spec_parse(format_scp(u, h, o, n)) == Ok::<LocationModel, ParseError>(LocationModel { host: h, owner: o, name: n }),
{
    lemma_round_trip_https(h, o, n);
    lemma_round_trip_ssh(h, o, n);
    lemma_round_trip_scp(u, h, o, n);
}

/// The scp-like shorthand and the HTTPS form of one location parse alike,
/// whatever user the shorthand carries.
pub proof fn lemma_scp_matches_https(u: Seq<u8>, h: Seq<u8>, o: Seq<u8>, n: Seq<u8>)
    requires
        plain_piece(u),
        plain_piece(h),
        plain_piece(o),
        plain_piece(n),
        strip_repo_suffix_spec(n).len() > 0,
    ensures
        spec_parse(format_scp(u, h, o, n)) == spec_parse(format_https(h, o, n)),
{
    lemma_round_trip_https(h, o, n);
    lemma_round_trip_scp(u, h, o, n);
}

/// The HTTPS scheme marker as a byte string.
fn https_prefix() -> (r: Vec<u8>)
    ensures
        r@ == https_scheme(),
{
    let mut v: Vec<u8> = Vec::new();
    v.push(LOWER_H);
    v.push(LOWER_T);
    v.push(LOWER_T);
    v.push(LOWER_P);
    v.push(LOWER_S);
    v.push(COLON);
    v.push(SLASH);
    v.push(SLASH);
    proof {
        assert(v@ =~= https_scheme());
    }
    v
}

/// The SSH scheme marker as a byte string.
fn ssh_prefix() -> (r: Vec<u8>)
    ensures
        r@ == ssh_scheme(),
{
    let mut v: Vec<u8> = Vec::new();
    v.push(LOWER_S);
    v.push(LOWER_S);
    v.push(LOWER_H);
    v.push(COLON);
    v.push(SLASH);
    v.push(SLASH);
    proof {
        assert(v@ =~= ssh_scheme());
    }
    v
}

/// Splits the path part into owner and name (see `spec_parse_path`).
fn parse_path(host: Vec<u8>, p: &Vec<u8>) -> (res: Result<ParsedLocation, ParseError>)
    ensures
        result_matches(spec_parse_path(host@, p@), res),
{
    let sl = find_byte(p, SLASH);
    if sl == p.len() {
        return Err(ParseError::MalformedPath);
    }
    let owner = sub_bytes(p, 0, sl);
    if owner.len() == 0 {
        return Err(ParseError::MalformedPath);
    }
    let rest = sub_bytes(p, sl + 1, p.len());
    let slash2 = find_byte(&rest, SLASH);
    if rest.len() == 0 || slash2 < rest.len() {
        return Err(ParseError::MalformedPath);
    }
    let name = strip_repo_suffix(&rest);
    if name.len() == 0 {
        return Err(ParseError::MalformedPath);
    }
    Ok(ParsedLocation { host, owner, name })
}

/// Parses `[user@]host[:port]/owner/name` (see `spec_parse_authority_path`).
fn parse_authority_path(r: &Vec<u8>) -> (res: Result<ParsedLocation, ParseError>)
    ensures
        result_matches(spec_parse_authority_path(r@), res),
{
    let sl = find_byte(r, SLASH);
    if sl == r.len() {
        return Err(ParseError::MalformedPath);
    }
    let authority = sub_bytes(r, 0, sl);
    let p = sub_bytes(r, sl + 1, r.len());
    let at = find_byte(&authority, AT_SIGN);
    let hostport = if at < authority.len() {
        sub_bytes(&authority, at + 1, authority.len())
    } else {
        authority
    };
    let co = find_byte(&hostport, COLON);
    let host = sub_bytes(&hostport, 0, co);
    if host.len() == 0 {
        return Err(ParseError::EmptyHost);
    }
    parse_path(host, &p)
}

/// Parses the scp-like shorthand (see `spec_parse_scp`).
fn parse_scp(s: &Vec<u8>) -> (res: Result<ParsedLocation, ParseError>)
    ensures
        result_matches(spec_parse_scp(s@), res),
{
    let at = find_byte(s, AT_SIGN);
    if at == s.len() || at == 0 {
        return Err(ParseError::UnsupportedSyntax);
    }
    let user = sub_bytes(s, 0, at);
    let user_slash = find_byte(&user, SLASH);
    let user_colon = find_byte(&user, COLON);
    if user_slash < user.len() || user_colon < user.len() {
        return Err(ParseError::UnsupportedSyntax);
    }
    let r = sub_bytes(s, at + 1, s.len());
    let co = find_byte(&r, COLON);
    if co == r.len() {
        return Err(ParseError::UnsupportedSyntax);
    }
    let host = sub_bytes(&r, 0, co);
    let host_slash = find_byte(&host, SLASH);
    if host_slash < host.len() {
        return Err(ParseError::UnsupportedSyntax);
    }
    if host.len() == 0 {
        return Err(ParseError::EmptyHost);
    }
    let p = sub_bytes(&r, co + 1, r.len());
    parse_path(host, &p)
}

/// Parses a raw remote URL into its `{host, owner, name}` location.
///
/// The result is exactly `spec_parse` of the input: a location satisfying
/// `wf_location` when the input fits one of the three accepted syntaxes,
/// the matching typed error otherwise.
pub fn parse(raw: &Vec<u8>) -> (res: Result<ParsedLocation, ParseError>)
    ensures
        result_matches(spec_parse(raw@), res),
        res matches Ok(loc) ==> wf_location(loc@),
{
    let https = https_prefix();
    let ssh = ssh_prefix();
    let res = if starts_with_bytes(raw, &https) {
        let rest = sub_bytes(raw, 8, raw.len());
        parse_authority_path(&rest)
    } else if starts_with_bytes(raw, &ssh) {
        let rest = sub_bytes(raw, 6, raw.len());
        parse_authority_path(&rest)
    } else {
        parse_scp(raw)
    };
    proof {
        lemma_parse_wf(raw@);
    }
    res
}

} // verus!
