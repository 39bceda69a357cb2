//! Resolving `ssr://` links and subscription bodies into [`Node`] records.

use crate::codec::{decode_chars, decode_spec};
use crate::errors::{Field, ResolveError};
use crate::codec::is_url_b64_out_char;
use crate::text::{
    all_digits, append_chars, chars_of, dec_chars, eq_chars, find_char, index_of_char,
    is_digit_char, lemma_dec_chars, lemma_index_of_char, lemma_index_of_char_at,
    lemma_split_char_prefix, lemma_split_char_whole, parse_u32_chars, parse_u32_spec, seqs_of,
    split_char, split_char_exec, string_from_chars, subvec, u32_to_dec_chars,
};
use vstd::prelude::*;

verus! {

// ---------------------------------------------------------------------------
// The node record
// ---------------------------------------------------------------------------

/// A fully resolved proxy node.  Either every field is populated from the
/// link, or the resolution fails — no partial node ever escapes.
#[derive(Debug, Clone)]
pub struct Node {
    pub ip: String,
    pub port: u32,
    pub protocol: String,
    pub method: String,
    pub obfs: String,
    /// The password, decoded to plaintext.
    pub password: String,
    pub obfsparam: String,
    /// The display remark, from the `remarks` parameter.
    pub name: String,
    pub group: String,
}

/// The mathematical value of a [`Node`].
pub struct NodeV {
    pub ip: Seq<char>,
    pub port: u32,
    pub protocol: Seq<char>,
    pub method: Seq<char>,
    pub obfs: Seq<char>,
    pub password: Seq<char>,
    pub obfsparam: Seq<char>,
    pub name: Seq<char>,
    pub group: Seq<char>,
}

impl View for Node {
    type V = NodeV;

    open spec fn view(&self) -> NodeV {
        NodeV {
            ip: self.ip@,
            port: self.port,
            protocol: self.protocol@,
            method: self.method@,
            obfs: self.obfs@,
            password: self.password@,
            obfsparam: self.obfsparam@,
            name: self.name@,
            group: self.group@,
        }
    }
}

impl Node {
    /// A copy for display with the password replaced by the redaction
    /// marker; the node itself is left untouched.
    pub fn redacted(&self) -> (r: Node)
        ensures
            r@ == (NodeV { password: "<HIDDEN>"@, ..self@ }),
    {
        Node {
            ip: self.ip.clone(),
            port: self.port,
            protocol: self.protocol.clone(),
            method: self.method.clone(),
            obfs: self.obfs.clone(),
            password: "<HIDDEN>".to_owned(),
            obfsparam: self.obfsparam.clone(),
            name: self.name.clone(),
            group: self.group.clone(),
        }
    }
}

/// A `Result` of nodes, seen at the spec level.
pub open spec fn node_res_view(r: Result<Node, ResolveError>) -> Result<NodeV, ResolveError> {
    match r {
        Ok(n) => Ok(n@),
        Err(e) => Err(e),
    }
}

// ---------------------------------------------------------------------------
// The `/?` separator
// ---------------------------------------------------------------------------

/// The position of the first `/?` separator in `s`.
pub open spec fn index_of_sep(s: Seq<char>) -> Option<int>
    decreases s.len(),
{
    if s.len() < 2 {
        None
    } else if s[0] == '/' && s[1] == '?' {
        Some(0)
    } else {
        match index_of_sep(s.drop_first()) {
            None => None,
            Some(i) => Some(i + 1),
        }
    }
}

/// `index_of_sep` finds `/?` at the returned index and nowhere earlier.
pub proof fn lemma_index_of_sep(s: Seq<char>)
    ensures
        match index_of_sep(s) {
            Some(i) => 0 <= i && i + 2 <= s.len() && s[i] == '/' && s[i + 1] == '?' && (forall|
                j: int,
            |
                0 <= j < i ==> !(#[trigger] s[j] == '/' && s[j + 1] == '?')),
            None => forall|j: int|
                0 <= j && j + 2 <= s.len() ==> !(#[trigger] s[j] == '/' && s[j + 1] == '?'),
        },
    decreases s.len(),
{
    if s.len() < 2 {
    } else if s[0] == '/' && s[1] == '?' {
    } else {
        lemma_index_of_sep(s.drop_first());
        assert(forall|j: int| 1 <= j < s.len() ==> s[j] == s.drop_first()[j - 1]);
    }
}

/// The converse: a first occurrence at `i` pins `index_of_sep` to `Some(i)`.
pub proof fn lemma_index_of_sep_at(s: Seq<char>, i: int)
    requires
        0 <= i,
        i + 2 <= s.len(),
        s[i] == '/',
        s[i + 1] == '?',
        forall|j: int| 0 <= j < i ==> !(#[trigger] s[j] == '/' && s[j + 1] == '?'),
    ensures
        index_of_sep(s) == Some(i),
{
    lemma_index_of_sep(s);
    match index_of_sep(s) {
        Some(k) => {
            if k < i {
            } else if i < k {
            }
        },
        None => {},
    }
}

/// Finds the first `/?` separator.
fn find_sep(v: &Vec<char>) -> (r: Option<usize>)
    ensures
        match r {
            Some(i) => index_of_sep(v@) == Some(i as int) && i + 2 <= v@.len(),
            None => index_of_sep(v@) is None,
        },
{
    if v.len() < 2 {
        proof {
            lemma_index_of_sep(v@);
            match index_of_sep(v@) {
                Some(k) => {
                    assert(k + 2 <= v@.len());
                },
                None => {},
            }
        }
        return None;
    }
    let mut i: usize = 0;
    while i <= v.len() - 2
        invariant
            v.len() >= 2,
            0 <= i <= v.len() - 1,
            forall|j: int| 0 <= j < i ==> !(#[trigger] v@[j] == '/' && v@[j + 1] == '?'),
        decreases v.len() - i,
    {
        if v[i] == '/' && v[i + 1] == '?' {
            proof {
                lemma_index_of_sep_at(v@, i as int);
            }
            return Some(i);
        }
        i += 1;
    }
    proof {
        lemma_index_of_sep(v@);
        match index_of_sep(v@) {
            Some(k) => {
                assert(!(v@[k] == '/' && v@[k + 1] == '?'));
            },
            None => {},
        }
    }
    None
}

// ---------------------------------------------------------------------------
// The link parser
// ---------------------------------------------------------------------------

/// The pieces of one decoded link body.
#[derive(Debug)]
pub struct LinkParts {
    pub ip: String,
    pub port: u32,
    pub protocol: String,
    pub method: String,
    pub obfs: String,
    /// The password, already decoded.
    pub password: String,
    /// The raw parameter segment after the `/?` separator.
    pub params_raw: String,
}

/// The mathematical value of a [`LinkParts`].
pub struct LinkPartsV {
    pub ip: Seq<char>,
    pub port: u32,
    pub protocol: Seq<char>,
    pub method: Seq<char>,
    pub obfs: Seq<char>,
    pub password: Seq<char>,
    pub params_raw: Seq<char>,
}

impl View for LinkParts {
    type V = LinkPartsV;

    open spec fn view(&self) -> LinkPartsV {
        LinkPartsV {
            ip: self.ip@,
            port: self.port,
            protocol: self.protocol@,
            method: self.method@,
            obfs: self.obfs@,
            password: self.password@,
            params_raw: self.params_raw@,
        }
    }
}

/// A `Result` of link parts, seen at the spec level.
pub open spec fn lp_res_view(r: Result<LinkParts, ResolveError>) -> Result<
    LinkPartsV,
    ResolveError,
> {
    match r {
        Ok(lp) => Ok(lp@),
        Err(e) => Err(e),
    }
}

/// The field a path segment with `n` pieces (`n < 6`) is missing first.
pub open spec fn missing_field(n: int) -> Field {
    if n <= 1 {
        Field::Port
    } else if n == 2 {
        Field::Protocol
    } else if n == 3 {
        Field::Method
    } else if n == 4 {
        Field::Obfs
    } else {
        Field::Password
    }
}

/// What [`parse_link_body`] yields: the part before the first `/?` is split
/// on `:` into ip, port, protocol, method, obfs and the encoded password
/// (pieces beyond the sixth are ignored); the part after the separator is
/// kept raw.  A missing separator or field is `NotFound`, a non-numeric
/// port is `MalformedInteger`, and the password is decoded by the codec.
pub open spec fn link_parts_spec(raw: Seq<char>) -> Result<LinkPartsV, ResolveError> {
    match index_of_sep(raw) {
        None => Err(ResolveError::NotFound(Field::Params)),
        Some(i) => {
            let toks = split_char(raw.take(i), ':');
            let params_raw = raw.skip(i + 2);
            if toks.len() < 2 {
                Err(ResolveError::NotFound(Field::Port))
            } else {
                match parse_u32_spec(toks[1]) {
                    None => Err(ResolveError::MalformedInteger),
                    Some(port) => if toks.len() < 6 {
                        Err(ResolveError::NotFound(missing_field(toks.len() as int)))
                    } else {
                        match decode_spec(toks[5]) {
                            Err(e) => Err(e),
                            Ok(pw) => Ok(
                                LinkPartsV {
                                    ip: toks[0],
                                    port,
                                    protocol: toks[2],
                                    method: toks[3],
                                    obfs: toks[4],
                                    password: pw,
                                    params_raw,
                                },
                            ),
                        }
                    },
                }
            }
        },
    }
}

fn parse_link_chars(v: &Vec<char>) -> (r: Result<LinkParts, ResolveError>)
    ensures
        lp_res_view(r) == link_parts_spec(v@),
{
    let sep = match find_sep(v) {
        Some(i) => i,
        None => {
            return Err(ResolveError::NotFound(Field::Params));
        },
    };
    let n = v.len();
    let link = subvec(v, 0, sep);
    let params_raw = subvec(v, sep + 2, n);
    proof {
        assert(link@ =~= v@.take(sep as int));
        assert(params_raw@ =~= v@.skip(sep + 2));
    }
    let toks = split_char_exec(&link, ':');
    proof {
        assert(seqs_of(toks@) == split_char(v@.take(sep as int), ':'));
    }
    if toks.len() < 2 {
        return Err(ResolveError::NotFound(Field::Port));
    }
    let port = match parse_u32_chars(&toks[1]) {
        Some(p) => p,
        None => {
            return Err(ResolveError::MalformedInteger);
        },
    };
    if toks.len() < 6 {
        let f = if toks.len() == 2 {
            Field::Protocol
        } else if toks.len() == 3 {
            Field::Method
        } else if toks.len() == 4 {
            Field::Obfs
        } else {
            Field::Password
        };
        return Err(ResolveError::NotFound(f));
    }
    let password = match decode_chars(&toks[5]) {
        Ok(p) => p,
        Err(e) => {
            return Err(e);
        },
    };
    Ok(
        LinkParts {
            ip: string_from_chars(&toks[0]),
            port,
            protocol: string_from_chars(&toks[2]),
            method: string_from_chars(&toks[3]),
            obfs: string_from_chars(&toks[4]),
            password,
            params_raw: string_from_chars(&params_raw),
        },
    )
}

/// Splits one decoded link body into its parts (see [`link_parts_spec`]).
pub fn parse_link_body(raw: &str) -> (r: Result<LinkParts, ResolveError>)
    ensures
        lp_res_view(r) == link_parts_spec(raw@),
{
    let v = chars_of(raw);
    parse_link_chars(&v)
}

// ---------------------------------------------------------------------------
// The parameter parser
// ---------------------------------------------------------------------------

/// One `key=value` parameter, its value already decoded.
#[derive(Debug, Clone)]
pub struct Param {
    pub name: String,
    pub value: String,
}

/// The parameters of a link, in order of appearance.  Lookup is by key and
/// the last occurrence of a key wins.
#[derive(Debug)]
pub struct Params {
    pub pairs: Vec<Param>,
}

/// The mapping an association list denotes: later pairs overwrite earlier
/// ones.
pub open spec fn assoc_map(s: Seq<Param>) -> Map<Seq<char>, Seq<char>>
    decreases s.len(),
{
    if s.len() == 0 {
        Map::empty()
    } else {
        assoc_map(s.drop_last()).insert(s.last().name@, s.last().value@)
    }
}

/// The last pair with a given name decides the mapping.
proof fn lemma_assoc_found(s: Seq<Param>, i: int, key: Seq<char>)
    requires
        0 <= i < s.len(),
        s[i].name@ == key,
        forall|j: int| i < j < s.len() ==> s[j].name@ != key,
    ensures
        assoc_map(s).contains_key(key),
        assoc_map(s)[key] == s[i].value@,
    decreases s.len(),
{
    if i == s.len() - 1 {
    } else {
        assert(s.drop_last()[i] == s[i]);
        lemma_assoc_found(s.drop_last(), i, key);
    }
}

/// A name no pair carries is not in the mapping.
proof fn lemma_assoc_absent(s: Seq<Param>, key: Seq<char>)
    requires
        forall|j: int| 0 <= j < s.len() ==> s[j].name@ != key,
    ensures
        !assoc_map(s).contains_key(key),
    decreases s.len(),
{
    if s.len() > 0 {
        lemma_assoc_absent(s.drop_last(), key);
    }
}

impl Params {
    /// The mapping from key to decoded value.
    pub open spec fn map_view(&self) -> Map<Seq<char>, Seq<char>> {
        assoc_map(self.pairs@)
    }

    /// Looks a key up; the last occurrence wins.
    pub fn get(&self, key: &str) -> (r: Option<&String>)
        ensures
            match r {
                Some(v) => self.map_view().contains_key(key@) && self.map_view()[key@] == v@,
                None => !self.map_view().contains_key(key@),
            },
    {
        let kv = chars_of(key);
        let mut i: usize = self.pairs.len();
        while i > 0
            invariant
                0 <= i <= self.pairs.len(),
                kv@ == key@,
                forall|j: int| i <= j < self.pairs@.len() ==> self.pairs@[j].name@ != key@,
            decreases i,
        {
            i -= 1;
            let nv = chars_of(self.pairs[i].name.as_str());
            if eq_chars(&nv, &kv) {
                proof {
                    lemma_assoc_found(self.pairs@, i as int, key@);
                }
                return Some(&self.pairs[i].value);
            }
        }
        proof {
            lemma_assoc_absent(self.pairs@, key@);
        }
        None
    }
}

/// What parsing one `key=value` pair yields: the part before the first `=`
/// is the key, the part after it is decoded by the codec; a pair without
/// `=` is a fatal parse error.
pub open spec fn parse_pair_spec(pair: Seq<char>) -> Result<(Seq<char>, Seq<char>), ResolveError> {
    match index_of_char(pair, '=') {
        None => Err(ResolveError::NotFound(Field::ParamValue)),
        Some(i) => match decode_spec(pair.skip(i + 1)) {
            Err(e) => Err(e),
            Ok(val) => Ok((pair.take(i), val)),
        },
    }
}

/// Folds pairs into a map, later pairs overwriting earlier ones; the first
/// failing pair aborts.
pub open spec fn params_fold(pairs: Seq<Seq<char>>, acc: Map<Seq<char>, Seq<char>>) -> Result<
    Map<Seq<char>, Seq<char>>,
    ResolveError,
>
    decreases pairs.len(),
{
    if pairs.len() == 0 {
        Ok(acc)
    } else {
        match parse_pair_spec(pairs[0]) {
            Err(e) => Err(e),
            Ok(kv) => params_fold(pairs.drop_first(), acc.insert(kv.0, kv.1)),
        }
    }
}

/// What [`parse_params`] yields: the segment split on `&` into pairs, each
/// pair split on its first `=`, each value decoded; duplicate keys keep the
/// last occurrence.
pub open spec fn parse_params_spec(raw: Seq<char>) -> Result<
    Map<Seq<char>, Seq<char>>,
    ResolveError,
> {
    params_fold(split_char(raw, '&'), Map::empty())
}

fn parse_params_chars(v: &Vec<char>) -> (r: Result<Params, ResolveError>)
    ensures
        r matches Ok(p) ==> parse_params_spec(v@) == Ok::<Map<Seq<char>, Seq<char>>, ResolveError>(
            p.map_view(),
        ),
        r matches Err(e) ==> parse_params_spec(v@) == Err::<
            Map<Seq<char>, Seq<char>>,
            ResolveError,
        >(e),
{
    let pairs = split_char_exec(v, '&');
    let ghost ps = seqs_of(pairs@);
    let mut out: Vec<Param> = Vec::new();
    let mut k: usize = 0;
    proof {
        assert(ps.skip(0) =~~= ps);
    }
    while k < pairs.len()
        invariant
            0 <= k <= pairs.len(),
            ps == seqs_of(pairs@),
            parse_params_spec(v@) == params_fold(ps.skip(k as int), assoc_map(out@)),
        decreases pairs.len() - k,
    {
        let pair = &pairs[k];
        proof {
            assert(ps.skip(k as int)[0] == ps[k as int]);
            assert(ps[k as int] == pair@);
        }
        let eq_pos = match find_char(pair, '=') {
            Some(i) => i,
            None => {
                return Err(ResolveError::NotFound(Field::ParamValue));
            },
        };
        proof {
            lemma_index_of_char(pair@, '=');
        }
        let name = subvec(pair, 0, eq_pos);
        let valraw = subvec(pair, eq_pos + 1, pair.len());
        proof {
            assert(name@ =~= pair@.take(eq_pos as int));
            assert(valraw@ =~= pair@.skip(eq_pos + 1));
        }
        let value = match decode_chars(&valraw) {
            Ok(t) => t,
            Err(e) => {
                return Err(e);
            },
        };
        let ghost old_out = out@;
        out.push(Param { name: string_from_chars(&name), value });
        proof {
            assert(out@.drop_last() =~~= old_out);
            assert(assoc_map(out@) =~~= assoc_map(old_out).insert(
                pair@.take(eq_pos as int),
                value@,
            ));
            assert(ps.skip(k as int).drop_first() =~~= ps.skip(k + 1));
        }
        k += 1;
    }
    proof {
        assert(ps.skip(pairs@.len() as int) =~~= Seq::<Seq<char>>::empty());
    }
    Ok(Params { pairs: out })
}

/// Parses a parameter segment into named, decoded values (see
/// [`parse_params_spec`]).
pub fn parse_params(raw: &str) -> (r: Result<Params, ResolveError>)
    ensures
        r matches Ok(p) ==> parse_params_spec(raw@) == Ok::<
            Map<Seq<char>, Seq<char>>,
            ResolveError,
        >(p.map_view()),
        r matches Err(e) ==> parse_params_spec(raw@) == Err::<
            Map<Seq<char>, Seq<char>>,
            ResolveError,
        >(e),
{
    let v = chars_of(raw);
    parse_params_chars(&v)
}

// ---------------------------------------------------------------------------
// The node resolver
// ---------------------------------------------------------------------------

/// What [`resolve_ssr_raw`] yields: link parts and parameters combined into
/// a node.  The required keys are checked in the order `obfsparam`,
/// `remarks`, `group`; `remarks` becomes the node's `name`.
pub open spec fn resolve_raw_spec(raw: Seq<char>) -> Result<NodeV, ResolveError> {
    match link_parts_spec(raw) {
        Err(e) => Err(e),
        Ok(lp) => match parse_params_spec(lp.params_raw) {
            Err(e) => Err(e),
            Ok(m) => if !m.contains_key("obfsparam"@) {
                Err(ResolveError::NotFound(Field::Obfsparam))
            } else if !m.contains_key("remarks"@) {
                Err(ResolveError::NotFound(Field::Remarks))
            } else if !m.contains_key("group"@) {
                Err(ResolveError::NotFound(Field::Group))
            } else {
                Ok(
                    NodeV {
                        ip: lp.ip,
                        port: lp.port,
                        protocol: lp.protocol,
                        method: lp.method,
                        obfs: lp.obfs,
                        password: lp.password,
                        obfsparam: m["obfsparam"@],
                        name: m["remarks"@],
                        group: m["group"@],
                    },
                )
            },
        },
    }
}

fn resolve_raw_chars(v: &Vec<char>) -> (r: Result<Node, ResolveError>)
    ensures
        node_res_view(r) == resolve_raw_spec(v@),
{
    let lp = match parse_link_chars(v) {
        Ok(lp) => lp,
        Err(e) => {
            return Err(e);
        },
    };
    let pr = chars_of(lp.params_raw.as_str());
    let params = match parse_params_chars(&pr) {
        Ok(p) => p,
        Err(e) => {
            return Err(e);
        },
    };
    let obfsparam = match params.get("obfsparam") {
        Some(s) => s.clone(),
        None => {
            return Err(ResolveError::NotFound(Field::Obfsparam));
        },
    };
    let name = match params.get("remarks") {
        Some(s) => s.clone(),
        None => {
            return Err(ResolveError::NotFound(Field::Remarks));
        },
    };
    let group = match params.get("group") {
        Some(s) => s.clone(),
        None => {
            return Err(ResolveError::NotFound(Field::Group));
        },
    };
    Ok(
        Node {
            ip: lp.ip,
            port: lp.port,
            protocol: lp.protocol,
            method: lp.method,
            obfs: lp.obfs,
            password: lp.password,
            obfsparam,
            name,
            group,
        },
    )
}

/// Resolves one decoded link body into a [`Node`] (see
/// [`resolve_raw_spec`]).
pub fn resolve_ssr_raw(raw: &str) -> (r: Result<Node, ResolveError>)
    ensures
        node_res_view(r) == resolve_raw_spec(raw@),
{
    let v = chars_of(raw);
    resolve_raw_chars(&v)
}

/// Whether `s` starts with the scheme prefix `ssr://`.
pub open spec fn has_ssr_prefix(s: Seq<char>) -> bool {
    s.len() >= 6 && s[0] == 's' && s[1] == 's' && s[2] == 'r' && s[3] == ':' && s[4] == '/' && s[5]
        == '/'
}

/// What [`resolve_ssr_link`] yields: the prefix is required, the remainder
/// is decoded by the codec, and the decoded body is resolved.
pub open spec fn resolve_link_spec(link: Seq<char>) -> Result<NodeV, ResolveError> {
    if !has_ssr_prefix(link) {
        Err(ResolveError::InvalidScheme)
    } else {
        match decode_spec(link.skip(6)) {
            Err(e) => Err(e),
            Ok(raw) => resolve_raw_spec(raw),
        }
    }
}

fn resolve_link_chars(v: &Vec<char>) -> (r: Result<Node, ResolveError>)
    ensures
        node_res_view(r) == resolve_link_spec(v@),
{
    if v.len() < 6 {
        return Err(ResolveError::InvalidScheme);
    }
    if *v.get(0).unwrap() != 's' || *v.get(1).unwrap() != 's' || *v.get(2).unwrap() != 'r'
        || *v.get(3).unwrap() != ':' || *v.get(4).unwrap() != '/' || *v.get(5).unwrap() != '/' {
        return Err(ResolveError::InvalidScheme);
    }
    let rest = subvec(v, 6, v.len());
    proof {
        assert(rest@ =~= v@.skip(6));
    }
    let raw = match decode_chars(&rest) {
        Ok(t) => t,
        Err(e) => {
            return Err(e);
        },
    };
    let rawv = chars_of(raw.as_str());
    resolve_raw_chars(&rawv)
}

/// Resolves one subscription line: requires the `ssr://` prefix, decodes
/// the remainder, and resolves the decoded body (see
/// [`resolve_link_spec`]).
pub fn resolve_ssr_link(link: &str) -> (r: Result<Node, ResolveError>)
    ensures
        node_res_view(r) == resolve_link_spec(link@),
{
    let v = chars_of(link);
    resolve_link_chars(&v)
}

// ---------------------------------------------------------------------------
// The subscription resolver
// ---------------------------------------------------------------------------

/// The non-empty lines, in order.
pub open spec fn keep_nonempty(lines: Seq<Seq<char>>) -> Seq<Seq<char>>
    decreases lines.len(),
{
    if lines.len() == 0 {
        Seq::empty()
    } else if lines.last().len() == 0 {
        keep_nonempty(lines.drop_last())
    } else {
        keep_nonempty(lines.drop_last()).push(lines.last())
    }
}

/// Resolves lines in order, short-circuiting on the first failure.
pub open spec fn rss_fold(lines: Seq<Seq<char>>) -> Result<Seq<NodeV>, ResolveError>
    decreases lines.len(),
{
    if lines.len() == 0 {
        Ok(Seq::empty())
    } else {
        match resolve_link_spec(lines[0]) {
            Err(e) => Err(e),
            Ok(n) => match rss_fold(lines.drop_first()) {
                Err(e) => Err(e),
                Ok(ns) => Ok(seq![n] + ns),
            },
        }
    }
}

/// What [`resolve_ssr_rss`] yields: the body split on newlines, empty lines
/// skipped, every remaining line resolved in order, the first failure
/// aborting the whole batch.
pub open spec fn resolve_rss_spec(body: Seq<char>) -> Result<Seq<NodeV>, ResolveError> {
    rss_fold(keep_nonempty(split_char(body, '\n')))
}

/// Appending a line to the end: earlier failures win; on success the node
/// list is extended by that line's node.
proof fn lemma_rss_fold_push(lines: Seq<Seq<char>>, l: Seq<char>)
    ensures
        rss_fold(lines.push(l)) == (match rss_fold(lines) {
            Err(e) => Err::<Seq<NodeV>, ResolveError>(e),
            Ok(ns) => match resolve_link_spec(l) {
                Err(e) => Err::<Seq<NodeV>, ResolveError>(e),
                Ok(n) => Ok::<Seq<NodeV>, ResolveError>(ns.push(n)),
            },
        }),
    decreases lines.len(),
{
    if lines.len() == 0 {
        assert(lines.push(l)[0] == l);
        assert(lines.push(l).drop_first() =~~= Seq::<Seq<char>>::empty());
        assert(lines =~~= Seq::<Seq<char>>::empty());
        assert(rss_fold(Seq::<Seq<char>>::empty()) == Ok::<Seq<NodeV>, ResolveError>(
            Seq::<NodeV>::empty(),
        ));
        assert(rss_fold(lines) == Ok::<Seq<NodeV>, ResolveError>(Seq::<NodeV>::empty()));
        match resolve_link_spec(l) {
            Err(e) => {
                assert(rss_fold(lines.push(l)) == Err::<Seq<NodeV>, ResolveError>(e));
            },
            Ok(n) => {
                assert(seq![n] + Seq::<NodeV>::empty() =~= Seq::<NodeV>::empty().push(n));
                assert(rss_fold(lines.push(l)) == Ok::<Seq<NodeV>, ResolveError>(
                    Seq::<NodeV>::empty().push(n),
                ));
            },
        }
    } else {
        assert(lines.push(l)[0] == lines[0]);
        assert(lines.push(l).drop_first() =~~= lines.drop_first().push(l));
        lemma_rss_fold_push(lines.drop_first(), l);
        match resolve_link_spec(lines[0]) {
            Err(e) => {
                assert(rss_fold(lines) == Err::<Seq<NodeV>, ResolveError>(e));
                assert(rss_fold(lines.push(l)) == Err::<Seq<NodeV>, ResolveError>(e));
            },
            Ok(n) => {
                match rss_fold(lines.drop_first()) {
                    Err(e) => {
                        assert(rss_fold(lines) == Err::<Seq<NodeV>, ResolveError>(e));
                        assert(rss_fold(lines.drop_first().push(l)) == Err::<
                            Seq<NodeV>,
                            ResolveError,
                        >(e));
                        assert(rss_fold(lines.push(l)) == Err::<Seq<NodeV>, ResolveError>(e));
                    },
                    Ok(ns) => {
                        assert(rss_fold(lines) == Ok::<Seq<NodeV>, ResolveError>(seq![n] + ns));
                        match resolve_link_spec(l) {
                            Err(e) => {
                                assert(rss_fold(lines.drop_first().push(l)) == Err::<
                                    Seq<NodeV>,
                                    ResolveError,
                                >(e));
                                assert(rss_fold(lines.push(l)) == Err::<Seq<NodeV>, ResolveError>(
                                    e,
                                ));
                            },
                            Ok(m) => {
                                assert(rss_fold(lines.drop_first().push(l)) == Ok::<
                                    Seq<NodeV>,
                                    ResolveError,
                                >(ns.push(m)));
                                assert(seq![n] + ns.push(m) =~= (seq![n] + ns).push(m));
                                assert(rss_fold(lines.push(l)) == Ok::<Seq<NodeV>, ResolveError>(
                                    (seq![n] + ns).push(m),
                                ));
                            },
                        }
                    },
                }
            },
        }
    }
}

/// A failed prefix decides the whole fold.
proof fn lemma_rss_fold_err_extend(a: Seq<Seq<char>>, b: Seq<Seq<char>>)
    requires
        rss_fold(a) is Err,
    ensures
        rss_fold(a + b) == rss_fold(a),
    decreases a.len(),
{
    if a.len() == 0 {
    } else {
        assert((a + b)[0] == a[0]);
        assert((a + b).drop_first() =~~= a.drop_first() + b);
        if resolve_link_spec(a[0]) is Err {
        } else {
            lemma_rss_fold_err_extend(a.drop_first(), b);
        }
    }
}

/// Filtering empty lines distributes over concatenation.
proof fn lemma_keep_nonempty_append(a: Seq<Seq<char>>, b: Seq<Seq<char>>)
    ensures
        keep_nonempty(a + b) == keep_nonempty(a) + keep_nonempty(b),
    decreases b.len(),
{
    if b.len() == 0 {
        assert(a + b =~~= a);
        assert(keep_nonempty(a) + keep_nonempty(b) =~~= keep_nonempty(a));
    } else {
        assert((a + b).drop_last() =~~= a + b.drop_last());
        assert((a + b).last() == b.last());
        lemma_keep_nonempty_append(a, b.drop_last());
        if b.last().len() == 0 {
            assert(keep_nonempty(b) == keep_nonempty(b.drop_last()));
        } else {
            assert(keep_nonempty(a) + keep_nonempty(b.drop_last()).push(b.last()) =~~= (
            keep_nonempty(a) + keep_nonempty(b.drop_last())).push(b.last()));
        }
    }
}

/// Resolves a whole subscription body: lines are split on `\n`, empty lines
/// are skipped, and each remaining line is resolved in order.  The first
/// line that fails aborts the whole call — no partial list is returned.
#[verifier::rlimit(60)]
pub fn resolve_ssr_rss(raw: &str) -> (r: Result<Vec<Node>, ResolveError>)
    ensures
        r matches Ok(nodes) ==> resolve_rss_spec(raw@) == Ok::<Seq<NodeV>, ResolveError>(
            nodes@.map_values(|n: Node| n@),
        ),
        r matches Err(e) ==> resolve_rss_spec(raw@) == Err::<Seq<NodeV>, ResolveError>(e),
{
    let v = chars_of(raw);
    let lines = split_char_exec(&v, '\n');
    let ghost ls = seqs_of(lines@);
    proof {
        assert(ls == split_char(raw@, '\n'));
    }
    let mut nodes: Vec<Node> = Vec::new();
    let mut i: usize = 0;
    proof {
        assert(ls.take(0) =~~= Seq::<Seq<char>>::empty());
        assert(nodes@.map_values(|n: Node| n@) =~= Seq::<NodeV>::empty());
    }
    while i < lines.len()
        invariant
            0 <= i <= lines.len(),
            ls == seqs_of(lines@),
            ls == split_char(raw@, '\n'),
            rss_fold(keep_nonempty(ls.take(i as int))) == Ok::<Seq<NodeV>, ResolveError>(
                nodes@.map_values(|n: Node| n@),
            ),
        decreases lines.len() - i,
    {
        let line = &lines[i];
        proof {
            assert(ls[i as int] == line@);
            assert(ls.take(i + 1) =~~= ls.take(i as int).push(ls[i as int]));
            assert(ls.take(i as int).push(ls[i as int]).drop_last() =~~= ls.take(i as int));
        }
        if line.len() > 0 {
            proof {
                assert(keep_nonempty(ls.take(i + 1)) == keep_nonempty(ls.take(i as int)).push(
                    ls[i as int],
                ));
                lemma_rss_fold_push(keep_nonempty(ls.take(i as int)), ls[i as int]);
            }
            match resolve_link_chars(line) {
                Ok(n) => {
                    let ghost old_nodes = nodes@;
                    nodes.push(n);
                    proof {
                        assert(nodes@.map_values(|n: Node| n@) =~= old_nodes.map_values(
                            |n: Node| n@,
                        ).push(n@));
                    }
                },
                Err(e) => {
                    proof {
                        assert(rss_fold(keep_nonempty(ls.take(i + 1))) == Err::<
                            Seq<NodeV>,
                            ResolveError,
                        >(e));
                        lemma_rss_fold_err_extend(
                            keep_nonempty(ls.take(i + 1)),
                            keep_nonempty(ls.skip(i + 1)),
                        );
                        lemma_keep_nonempty_append(ls.take(i + 1), ls.skip(i + 1));
                        assert(ls.take(i + 1) + ls.skip(i + 1) =~~= ls);
                    }
                    return Err(e);
                },
            }
        } else {
            proof {
                assert(keep_nonempty(ls.take(i + 1)) == keep_nonempty(ls.take(i as int)));
            }
        }
        i += 1;
    }
    proof {
        assert(ls.take(lines@.len() as int) =~~= ls);
    }
    Ok(nodes)
}

// ---------------------------------------------------------------------------
// Building a link back from a node
// ---------------------------------------------------------------------------

/// Whether `s` can stand as a literal path field: free of the `:` field
/// separator and of `/`, so that it cannot fake the `/?` separator.
pub open spec fn plain_field(s: Seq<char>) -> bool {
    forall|i: int| 0 <= i < s.len() ==> s[i] != ':' && s[i] != '/'
}

/// Whether `c` occurs nowhere in `s`.
pub open spec fn no_char(s: Seq<char>, c: char) -> bool {
    forall|i: int| 0 <= i < s.len() ==> s[i] != c
}

/// Whether every character of `s` is one the codec's encoder can emit.
pub open spec fn url_out(s: Seq<char>) -> bool {
    forall|i: int| 0 <= i < s.len() ==> is_url_b64_out_char(#[trigger] s[i])
}

proof fn lemma_no_char_concat(a: Seq<char>, b: Seq<char>, c: char)
    requires
        no_char(a, c),
        no_char(b, c),
    ensures
        no_char(a + b, c),
{
    assert forall|i: int| 0 <= i < (a + b).len() implies (a + b)[i] != c by {
        if i < a.len() {
        } else {
            assert((a + b)[i] == b[i - a.len()]);
        }
    }
}

/// What the encoder emits never collides with the record's separators.
proof fn lemma_url_out_plain(s: Seq<char>)
    requires
        url_out(s),
    ensures
        no_char(s, ':'),
        no_char(s, '/'),
        no_char(s, '&'),
{
    assert forall|i: int| 0 <= i < s.len() implies s[i] != ':' && s[i] != '/' && s[i] != '&' by {
        assert(is_url_b64_out_char(s[i]));
    }
}

/// Decimal digits never collide with the record's separators either.
proof fn lemma_digits_plain(s: Seq<char>)
    requires
        all_digits(s),
    ensures
        no_char(s, ':'),
        no_char(s, '/'),
{
    assert forall|i: int| 0 <= i < s.len() implies s[i] != ':' && s[i] != '/' by {
        assert(is_digit_char(s[i]));
    }
}

/// The record text a node is encoded as, before the codec pass.
spec fn record_of(
    ipv: Seq<char>,
    portv: Seq<char>,
    protov: Seq<char>,
    methodv: Seq<char>,
    obfsv: Seq<char>,
    encpw: Seq<char>,
    encop: Seq<char>,
    encnm: Seq<char>,
    encgp: Seq<char>,
) -> Seq<char> {
    ipv + seq![':'] + portv + seq![':'] + protov + seq![':'] + methodv + seq![':'] + obfsv
        + seq![':'] + encpw + seq!['/'] + seq!['?'] + "obfsparam"@ + seq!['='] + encop + seq!['&']
        + "remarks"@ + seq!['='] + encnm + seq!['&'] + "group"@ + seq!['='] + encgp
}

/// A well-formed record parses back to exactly the values it was built
/// from.
#[verifier::rlimit(100)]
proof fn lemma_record_roundtrip(
    ipv: Seq<char>,
    protov: Seq<char>,
    methodv: Seq<char>,
    obfsv: Seq<char>,
    encpw: Seq<char>,
    encop: Seq<char>,
    encnm: Seq<char>,
    encgp: Seq<char>,
    port: u32,
    pw: Seq<char>,
    op: Seq<char>,
    nm: Seq<char>,
    gp: Seq<char>,
)
    requires
        plain_field(ipv),
        plain_field(protov),
        plain_field(methodv),
        plain_field(obfsv),
        url_out(encpw),
        url_out(encop),
        url_out(encnm),
        url_out(encgp),
        decode_spec(encpw) == Ok::<Seq<char>, ResolveError>(pw),
        decode_spec(encop) == Ok::<Seq<char>, ResolveError>(op),
        decode_spec(encnm) == Ok::<Seq<char>, ResolveError>(nm),
        decode_spec(encgp) == Ok::<Seq<char>, ResolveError>(gp),
    ensures
        resolve_raw_spec(
            record_of(ipv, dec_chars(port), protov, methodv, obfsv, encpw, encop, encnm, encgp),
        ) == Ok::<NodeV, ResolveError>(
            NodeV {
                ip: ipv,
                port,
                protocol: protov,
                method: methodv,
                obfs: obfsv,
                password: pw,
                obfsparam: op,
                name: nm,
                group: gp,
            },
        ),
{
    reveal_strlit("obfsparam");
    reveal_strlit("remarks");
    reveal_strlit("group");
    let kop = "obfsparam"@;
    let krem = "remarks"@;
    let kgrp = "group"@;
    let portv = dec_chars(port);
    lemma_dec_chars(port);
    lemma_digits_plain(portv);
    lemma_url_out_plain(encpw);
    lemma_url_out_plain(encop);
    lemma_url_out_plain(encnm);
    lemma_url_out_plain(encgp);
    let rec = record_of(ipv, portv, protov, methodv, obfsv, encpw, encop, encnm, encgp);
    let link = ipv + seq![':'] + portv + seq![':'] + protov + seq![':'] + methodv + seq![':']
        + obfsv + seq![':'] + encpw;
    let params = kop + seq!['='] + encop + seq!['&'] + krem + seq!['='] + encnm + seq!['&'] + kgrp
        + seq!['='] + encgp;
    assert(rec =~= link + seq!['/'] + seq!['?'] + params);

    // --- the separator sits right after the link part ---
    let lcol = seq![':'];
    assert(no_char(ipv, '/') && no_char(protov, '/') && no_char(methodv, '/') && no_char(
        obfsv,
        '/',
    ));
    assert(no_char(lcol, '/'));
    lemma_no_char_concat(ipv, lcol, '/');
    lemma_no_char_concat(ipv + lcol, portv, '/');
    lemma_no_char_concat(ipv + lcol + portv, lcol, '/');
    lemma_no_char_concat(ipv + lcol + portv + lcol, protov, '/');
    lemma_no_char_concat(ipv + lcol + portv + lcol + protov, lcol, '/');
    lemma_no_char_concat(ipv + lcol + portv + lcol + protov + lcol, methodv, '/');
    lemma_no_char_concat(ipv + lcol + portv + lcol + protov + lcol + methodv, lcol, '/');
    lemma_no_char_concat(ipv + lcol + portv + lcol + protov + lcol + methodv + lcol, obfsv, '/');
    lemma_no_char_concat(
        ipv + lcol + portv + lcol + protov + lcol + methodv + lcol + obfsv,
        lcol,
        '/',
    );
    lemma_no_char_concat(
        ipv + lcol + portv + lcol + protov + lcol + methodv + lcol + obfsv + lcol,
        encpw,
        '/',
    );
    assert(no_char(link, '/'));
    let ll = link.len() as int;
    assert(rec[ll] == '/' && rec[ll + 1] == '?');
    assert(forall|j: int| 0 <= j < ll ==> rec[j] == link[j]);
    lemma_index_of_sep_at(rec, ll);
    assert(rec.take(ll) =~= link);
    assert(rec.skip(ll + 2) =~= params);

    // --- the link part splits into exactly the six fields ---
    let rest4 = obfsv + seq![':'] + encpw;
    let rest3 = methodv + seq![':'] + rest4;
    let rest2 = protov + seq![':'] + rest3;
    let rest1 = portv + seq![':'] + rest2;
    assert(link =~= ipv + seq![':'] + rest1);
    assert(rest1 =~= portv + seq![':'] + rest2);
    lemma_split_char_prefix(ipv, rest1, ':');
    lemma_split_char_prefix(portv, rest2, ':');
    lemma_split_char_prefix(protov, rest3, ':');
    lemma_split_char_prefix(methodv, rest4, ':');
    lemma_split_char_prefix(obfsv, encpw, ':');
    lemma_split_char_whole(encpw, ':');
    let toks = split_char(link, ':');
    assert(toks =~~= seq![ipv, portv, protov, methodv, obfsv, encpw]);
    assert(parse_u32_spec(toks[1]) == Some(port));
    assert(link_parts_spec(rec) == Ok::<LinkPartsV, ResolveError>(
        LinkPartsV {
            ip: ipv,
            port,
            protocol: protov,
            method: methodv,
            obfs: obfsv,
            password: pw,
            params_raw: params,
        },
    ));

    // --- the parameter segment splits into the three pairs ---
    let p1 = kop + seq!['='] + encop;
    let p2 = krem + seq!['='] + encnm;
    let p3 = kgrp + seq!['='] + encgp;
    let restq1 = p2 + seq!['&'] + p3;
    assert(params =~= p1 + seq!['&'] + restq1);
    assert(restq1 =~= p2 + seq!['&'] + p3);
    assert(no_char(kop, '&') && no_char(krem, '&') && no_char(kgrp, '&'));
    assert(no_char(seq!['='], '&'));
    lemma_no_char_concat(kop, seq!['='], '&');
    lemma_no_char_concat(kop + seq!['='], encop, '&');
    lemma_no_char_concat(krem, seq!['='], '&');
    lemma_no_char_concat(krem + seq!['='], encnm, '&');
    lemma_no_char_concat(kgrp, seq!['='], '&');
    lemma_no_char_concat(kgrp + seq!['='], encgp, '&');
    lemma_split_char_prefix(p1, restq1, '&');
    lemma_split_char_prefix(p2, p3, '&');
    lemma_split_char_whole(p3, '&');
    let pairs = split_char(params, '&');
    assert(pairs =~~= seq![p1, p2, p3]);

    // --- each pair splits at its first `=` ---
    assert(no_char(kop, '=') && no_char(krem, '=') && no_char(kgrp, '='));
    assert(p1[kop.len() as int] == '=');
    assert(forall|j: int| 0 <= j < kop.len() ==> p1[j] == kop[j]);
    lemma_index_of_char_at(p1, '=', kop.len() as int);
    assert(p1.take(kop.len() as int) =~= kop);
    assert(p1.skip(kop.len() as int + 1) =~= encop);
    assert(parse_pair_spec(p1) == Ok::<(Seq<char>, Seq<char>), ResolveError>((kop, op)));
    assert(p2[krem.len() as int] == '=');
    assert(forall|j: int| 0 <= j < krem.len() ==> p2[j] == krem[j]);
    lemma_index_of_char_at(p2, '=', krem.len() as int);
    assert(p2.take(krem.len() as int) =~= krem);
    assert(p2.skip(krem.len() as int + 1) =~= encnm);
    assert(parse_pair_spec(p2) == Ok::<(Seq<char>, Seq<char>), ResolveError>((krem, nm)));
    assert(p3[kgrp.len() as int] == '=');
    assert(forall|j: int| 0 <= j < kgrp.len() ==> p3[j] == kgrp[j]);
    lemma_index_of_char_at(p3, '=', kgrp.len() as int);
    assert(p3.take(kgrp.len() as int) =~= kgrp);
    assert(p3.skip(kgrp.len() as int + 1) =~= encgp);
    assert(parse_pair_spec(p3) == Ok::<(Seq<char>, Seq<char>), ResolveError>((kgrp, gp)));

    // --- folding the pairs gives the three-key map ---
    let m0 = Map::<Seq<char>, Seq<char>>::empty();
    let m1 = m0.insert(kop, op);
    let m2 = m1.insert(krem, nm);
    let m3 = m2.insert(kgrp, gp);
    assert(pairs[0] == p1);
    assert(pairs.drop_first() =~~= seq![p2, p3]);
    assert(seq![p2, p3].drop_first() =~~= seq![p3]);
    assert(seq![p3].drop_first() =~~= Seq::<Seq<char>>::empty());
    assert(params_fold(Seq::<Seq<char>>::empty(), m3) == Ok::<
        Map<Seq<char>, Seq<char>>,
        ResolveError,
    >(m3));
    assert(params_fold(seq![p3], m2) == Ok::<Map<Seq<char>, Seq<char>>, ResolveError>(m3));
    assert(params_fold(seq![p2, p3], m1) == Ok::<Map<Seq<char>, Seq<char>>, ResolveError>(m3));
    assert(params_fold(pairs, m0) == Ok::<Map<Seq<char>, Seq<char>>, ResolveError>(m3));
    assert(parse_params_spec(params) == Ok::<Map<Seq<char>, Seq<char>>, ResolveError>(m3));

    // --- the required keys are present and distinct ---
    assert(kop.len() == 9 && krem.len() == 7 && kgrp.len() == 5);
    assert(kop != krem && kop != kgrp && krem != kgrp);
    assert(m3.contains_key(kop) && m3.contains_key(krem) && m3.contains_key(kgrp));
    assert(m3[kop] == op && m3[krem] == nm && m3[kgrp] == gp);
}

/// Builds the `ssr://` link a [`Node`] resolves from: the record
/// `ip:port:protocol:method:obfs:encode(password)` followed by
/// `/?obfsparam=...&remarks=...&group=...` with every free-form value
/// codec-encoded, the whole record codec-encoded again behind the scheme
/// prefix.
///
/// The `ensures` clause is the record round-trip law: resolving the built
/// link yields exactly the node back.  The path fields must not contain the
/// separators `:` or `/`; every other field may hold anything.
pub fn encode_ssr_link(node: &Node) -> (r: String)
    requires
        plain_field(node.ip@),
        plain_field(node.protocol@),
        plain_field(node.method@),
        plain_field(node.obfs@),
    ensures
        resolve_link_spec(r@) == Ok::<NodeV, ResolveError>(node@),
{
    let mut rec: Vec<char> = Vec::new();
    let ipv = chars_of(node.ip.as_str());
    append_chars(&mut rec, &ipv);
    rec.push(':');
    let portv = u32_to_dec_chars(node.port);
    append_chars(&mut rec, &portv);
    rec.push(':');
    let protov = chars_of(node.protocol.as_str());
    append_chars(&mut rec, &protov);
    rec.push(':');
    let methodv = chars_of(node.method.as_str());
    append_chars(&mut rec, &methodv);
    rec.push(':');
    let obfsv = chars_of(node.obfs.as_str());
    append_chars(&mut rec, &obfsv);
    rec.push(':');
    let pw_bytes = node.password.as_str().as_bytes_vec();
    let pw_enc_s = crate::codec::encode(&pw_bytes);
    let pw_enc = chars_of(pw_enc_s.as_str());
    append_chars(&mut rec, &pw_enc);
    rec.push('/');
    rec.push('?');
    let kop = chars_of("obfsparam");
    append_chars(&mut rec, &kop);
    rec.push('=');
    let op_bytes = node.obfsparam.as_str().as_bytes_vec();
    let op_enc_s = crate::codec::encode(&op_bytes);
    let op_enc = chars_of(op_enc_s.as_str());
    append_chars(&mut rec, &op_enc);
    rec.push('&');
    let krem = chars_of("remarks");
    append_chars(&mut rec, &krem);
    rec.push('=');
    let nm_bytes = node.name.as_str().as_bytes_vec();
    let nm_enc_s = crate::codec::encode(&nm_bytes);
    let nm_enc = chars_of(nm_enc_s.as_str());
    append_chars(&mut rec, &nm_enc);
    rec.push('&');
    let kgrp = chars_of("group");
    append_chars(&mut rec, &kgrp);
    rec.push('=');
    let gp_bytes = node.group.as_str().as_bytes_vec();
    let gp_enc_s = crate::codec::encode(&gp_bytes);
    let gp_enc = chars_of(gp_enc_s.as_str());
    append_chars(&mut rec, &gp_enc);
    proof {
        vstd::utf8::encode_utf8_valid_utf8(node.password@);
        vstd::utf8::encode_utf8_decode_utf8(node.password@);
        vstd::utf8::encode_utf8_valid_utf8(node.obfsparam@);
        vstd::utf8::encode_utf8_decode_utf8(node.obfsparam@);
        vstd::utf8::encode_utf8_valid_utf8(node.name@);
        vstd::utf8::encode_utf8_decode_utf8(node.name@);
        vstd::utf8::encode_utf8_valid_utf8(node.group@);
        vstd::utf8::encode_utf8_decode_utf8(node.group@);
        lemma_record_roundtrip(
            node.ip@,
            node.protocol@,
            node.method@,
            node.obfs@,
            pw_enc@,
            op_enc@,
            nm_enc@,
            gp_enc@,
            node.port,
            node.password@,
            node.obfsparam@,
            node.name@,
            node.group@,
        );
        assert(rec@ =~= record_of(
            node.ip@,
            dec_chars(node.port),
            node.protocol@,
            node.method@,
            node.obfs@,
            pw_enc@,
            op_enc@,
            nm_enc@,
            gp_enc@,
        ));
    }
    let rec_s = string_from_chars(&rec);
    let rec_bytes = rec_s.as_str().as_bytes_vec();
    let payload_s = crate::codec::encode(&rec_bytes);
    let payload = chars_of(payload_s.as_str());
    let mut out: Vec<char> = Vec::new();
    out.push('s');
    out.push('s');
    out.push('r');
    out.push(':');
    out.push('/');
    out.push('/');
    append_chars(&mut out, &payload);
    proof {
        vstd::utf8::encode_utf8_valid_utf8(rec@);
        vstd::utf8::encode_utf8_decode_utf8(rec@);
        assert(has_ssr_prefix(out@));
        assert(out@.skip(6) =~= payload@);
        assert(decode_spec(out@.skip(6)) == Ok::<Seq<char>, ResolveError>(rec@));
        assert(resolve_raw_spec(rec@) == Ok::<NodeV, ResolveError>(node@));
    }
    string_from_chars(&out)
}

// ---------------------------------------------------------------------------
// Laws
// ---------------------------------------------------------------------------

/// A link without the `ssr://` prefix resolves to `InvalidScheme`, whatever
/// follows.
pub proof fn lemma_invalid_scheme(link: Seq<char>)
    requires
        !has_ssr_prefix(link),
    ensures
        resolve_link_spec(link) == Err::<NodeV, ResolveError>(ResolveError::InvalidScheme),
{
}

/// A path segment with fewer than six `:`-separated fields fails with
/// `NotFound` naming the first absent field.  When the port field is
/// present but not numeric, `MalformedInteger` wins instead, so the law
/// asks for a well-formed port.
pub proof fn lemma_missing_link_field(raw: Seq<char>)
    requires
        index_of_sep(raw) is Some,
        split_char(raw.take(index_of_sep(raw)->Some_0), ':').len() < 6,
        split_char(raw.take(index_of_sep(raw)->Some_0), ':').len() >= 2 ==> parse_u32_spec(
            split_char(raw.take(index_of_sep(raw)->Some_0), ':')[1],
        ) is Some,
    ensures
        resolve_raw_spec(raw) == Err::<NodeV, ResolveError>(
            ResolveError::NotFound(
                missing_field(split_char(raw.take(index_of_sep(raw)->Some_0), ':').len() as int),
            ),
        ),
{
}

/// A present but non-numeric (or oversized) port field fails with
/// `MalformedInteger`.
pub proof fn lemma_malformed_port(raw: Seq<char>)
    requires
        index_of_sep(raw) is Some,
        split_char(raw.take(index_of_sep(raw)->Some_0), ':').len() >= 2,
        parse_u32_spec(split_char(raw.take(index_of_sep(raw)->Some_0), ':')[1]) is None,
    ensures
        resolve_raw_spec(raw) == Err::<NodeV, ResolveError>(ResolveError::MalformedInteger),
{
}

/// A link whose parameters lack one of the required keys `obfsparam`,
/// `remarks`, `group` fails with `NotFound` naming the first missing one,
/// checked in that order.
pub proof fn lemma_missing_param_key(raw: Seq<char>)
    requires
        link_parts_spec(raw) is Ok,
        parse_params_spec(link_parts_spec(raw)->Ok_0.params_raw) is Ok,
        !(parse_params_spec(link_parts_spec(raw)->Ok_0.params_raw)->Ok_0.contains_key("obfsparam"@)
            && parse_params_spec(link_parts_spec(raw)->Ok_0.params_raw)->Ok_0.contains_key(
            "remarks"@,
        ) && parse_params_spec(link_parts_spec(raw)->Ok_0.params_raw)->Ok_0.contains_key(
            "group"@,
        )),
    ensures
        resolve_raw_spec(raw) == Err::<NodeV, ResolveError>(
            ResolveError::NotFound(
                if !parse_params_spec(link_parts_spec(raw)->Ok_0.params_raw)->Ok_0.contains_key(
                    "obfsparam"@,
                ) {
                    Field::Obfsparam
                } else if !parse_params_spec(
                    link_parts_spec(raw)->Ok_0.params_raw,
                )->Ok_0.contains_key("remarks"@) {
                    Field::Remarks
                } else {
                    Field::Group
                },
            ),
        ),
{
}

/// Blank lines are invisible: two bodies with the same non-empty lines
/// resolve to the same outcome, nodes and order included.
pub proof fn lemma_blank_lines_ignored(b1: Seq<char>, b2: Seq<char>)
    requires
        keep_nonempty(split_char(b1, '\n')) == keep_nonempty(split_char(b2, '\n')),
    ensures
        resolve_rss_spec(b1) == resolve_rss_spec(b2),
{
}

/// Every line of a fully resolved fold contributes exactly one node, in
/// order.
proof fn lemma_rss_fold_ok(lines: Seq<Seq<char>>)
    requires
        rss_fold(lines) is Ok,
    ensures
        rss_fold(lines)->Ok_0.len() == lines.len(),
        forall|i: int|
            0 <= i < lines.len() ==> resolve_link_spec(lines[i]) == Ok::<NodeV, ResolveError>(
                rss_fold(lines)->Ok_0[i],
            ),
    decreases lines.len(),
{
    if lines.len() > 0 {
        lemma_rss_fold_ok(lines.drop_first());
        let ns = rss_fold(lines.drop_first())->Ok_0;
        let n = resolve_link_spec(lines[0])->Ok_0;
        assert(rss_fold(lines)->Ok_0 == seq![n] + ns);
        assert forall|i: int|
            0 <= i < lines.len() implies resolve_link_spec(lines[i]) == Ok::<NodeV, ResolveError>(
            rss_fold(lines)->Ok_0[i],
        ) by {
            if i > 0 {
                assert(lines.drop_first()[i - 1] == lines[i]);
                assert((seq![n] + ns)[i] == ns[i - 1]);
            }
        }
    }
}

/// A resolved subscription mirrors its non-empty lines, in order: node `i`
/// is the resolution of the `i`-th non-empty line.
pub proof fn lemma_rss_order(body: Seq<char>)
    requires
        resolve_rss_spec(body) is Ok,
    ensures
        resolve_rss_spec(body)->Ok_0.len() == keep_nonempty(split_char(body, '\n')).len(),
        forall|i: int|
            0 <= i < keep_nonempty(split_char(body, '\n')).len() ==> resolve_link_spec(
                keep_nonempty(split_char(body, '\n'))[i],
            ) == Ok::<NodeV, ResolveError>(resolve_rss_spec(body)->Ok_0[i]),
{
    lemma_rss_fold_ok(keep_nonempty(split_char(body, '\n')));
}

/// The first failing line decides the fold's error.
proof fn lemma_rss_fold_first_err(lines: Seq<Seq<char>>, i: int)
    requires
        0 <= i < lines.len(),
        forall|j: int| 0 <= j < i ==> resolve_link_spec(#[trigger] lines[j]) is Ok,
        resolve_link_spec(lines[i]) is Err,
    ensures
        rss_fold(lines) == Err::<Seq<NodeV>, ResolveError>(resolve_link_spec(lines[i])->Err_0),
    decreases i,
{
    if i == 0 {
    } else {
        assert(resolve_link_spec(lines[0]) is Ok);
        assert(lines.drop_first()[i - 1] == lines[i]);
        assert(forall|j: int| 0 <= j < i - 1 ==> lines.drop_first()[j] == lines[j + 1]);
        lemma_rss_fold_first_err(lines.drop_first(), i - 1);
    }
}

/// Fail-fast: when every non-empty line before the `i`-th resolves and the
/// `i`-th fails, the whole subscription fails with that line's error — no
/// partial node list is returned.
pub proof fn lemma_rss_fail_fast(body: Seq<char>, i: int)
    requires
        0 <= i < keep_nonempty(split_char(body, '\n')).len(),
        forall|j: int|
            0 <= j < i ==> resolve_link_spec(
                #[trigger] keep_nonempty(split_char(body, '\n'))[j],
            ) is Ok,
        resolve_link_spec(keep_nonempty(split_char(body, '\n'))[i]) is Err,
    ensures
        resolve_rss_spec(body) == Err::<Seq<NodeV>, ResolveError>(
            resolve_link_spec(keep_nonempty(split_char(body, '\n'))[i])->Err_0,
        ),
{
    lemma_rss_fold_first_err(keep_nonempty(split_char(body, '\n')), i);
}

} // verus!
