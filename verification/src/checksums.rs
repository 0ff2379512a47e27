//! The content-fingerprinting engine: file and directory digests,
//! per-entry manifests, and the flat on-disk manifest format.

use vstd::prelude::*;

verus! {

// ---------------------------------------------------------------------------
// Digest primitives
// ---------------------------------------------------------------------------

/// Names the 32-byte digest that sha2's Sha256 produces for a byte sequence.
pub uninterp spec fn sha256_of(data: Seq<u8>) -> Seq<u8>;

/// ASCII code of the lowercase hexadecimal digit for `n` (meaningful for `n < 16`).
pub open spec fn hex_digit_byte(n: u8) -> u8
    recommends
        n < 16,
{
    if n < 10 {
        (0x30 + n) as u8
    } else {
        (0x57 + n) as u8
    }
}

/// The lowercase hexadecimal encoding of a byte sequence, as ASCII codes:
/// two digits per byte, high nibble first.
pub open spec fn hex_bytes_of(b: Seq<u8>) -> Seq<u8> {
    Seq::new(
        2 * b.len(),
        |i: int|
            if i % 2 == 0 {
                hex_digit_byte(b[i / 2] / 16)
            } else {
                hex_digit_byte(b[i / 2] % 16)
            },
    )
}

/// The characters with the given ASCII codes.
pub open spec fn chars_of_bytes(b: Seq<u8>) -> Seq<char> {
    b.map_values(|x: u8| x as char)
}

/// The digest string of raw data: its SHA-256 digest, hex-encoded.
pub open spec fn sha256_hex_of(data: Seq<u8>) -> Seq<char> {
    chars_of_bytes(hex_bytes_of(sha256_of(data)))
}

/// ASCII code of a lowercase hexadecimal digit.
pub open spec fn is_lower_hex_byte(x: u8) -> bool {
    (0x30 <= x && x <= 0x39) || (0x61 <= x && x <= 0x66)
}

/// A lowercase hexadecimal digit character.
pub open spec fn is_lower_hex_char(c: char) -> bool {
    ('0' <= c && c <= '9') || ('a' <= c && c <= 'f')
}

/// Every character of the sequence is a lowercase hexadecimal digit.
pub open spec fn all_lower_hex(s: Seq<char>) -> bool {
    forall|i: int| 0 <= i < s.len() ==> is_lower_hex_char(#[trigger] s[i])
}

/// Relies on sha2's Sha256: `Digest::digest` returns the 32-byte SHA-256
/// digest of the input.
#[verifier::external_body]
fn sha256_bytes(data: &[u8]) -> (r: Vec<u8>)
    ensures
        r@ == sha256_of(data@),
        r@.len() == 32,
{
    <sha2::Sha256 as sha2::Digest>::digest(data).to_vec()
}

/// Relies on String::from_utf8: a sequence of ASCII bytes decodes to the
/// string of exactly those characters.
#[verifier::external_body]
fn ascii_string(bytes: Vec<u8>) -> (r: String)
    requires
        forall|i: int| 0 <= i < bytes@.len() ==> bytes@[i] < 128,
    ensures
        r@ == chars_of_bytes(bytes@),
{
    match String::from_utf8(bytes) {
        Ok(s) => s,
        Err(_) => String::new(),
    }
}

/// The executable lowercase-hexadecimal digit encoder.
fn hex_digit(n: u8) -> (r: u8)
    requires
        n < 16,
    ensures
        r == hex_digit_byte(n),
{
    if n < 10 {
        0x30 + n
    } else {
        0x57 + n
    }
}

/// Hex-encodes a byte sequence as lowercase ASCII digit codes, two per byte.
fn hex_encode(b: &[u8]) -> (r: Vec<u8>)
    ensures
        r@ == hex_bytes_of(b@),
{
    let mut out: Vec<u8> = Vec::new();
    let mut i: usize = 0;
    while i < b.len()
        invariant
            i <= b@.len(),
            out@.len() == 2 * i,
            forall|j: int| 0 <= j < out@.len() ==> out@[j] == hex_bytes_of(b@)[j],
        decreases b@.len() - i,
    {
        let x = b[i];
        out.push(hex_digit(x / 16));
        out.push(hex_digit(x % 16));
        i += 1;
    }
    proof {
        assert(out@ =~= hex_bytes_of(b@));
    }
    out
}

/// Hex digits are printable ASCII, in particular below 128.
pub proof fn lemma_hex_bytes_ascii(b: Seq<u8>)
    ensures
        forall|i: int|
            0 <= i < hex_bytes_of(b).len() ==> is_lower_hex_byte(#[trigger] hex_bytes_of(b)[i]),
{
}

/// Computes the digest string of raw data: SHA-256, hex-encoded.
fn sha256_hex(data: &[u8]) -> (r: String)
    ensures
        r@ == sha256_hex_of(data@),
        r@.len() == 64,
        all_lower_hex(r@),
{
    let digest = sha256_bytes(data);
    let hex = hex_encode(digest.as_slice());
    proof {
        lemma_hex_bytes_ascii(digest@);
    }
    let s = ascii_string(hex);
    proof {
        assert(all_lower_hex(s@)) by {
            lemma_hex_bytes_ascii(digest@);
        }
    }
    s
}

// ---------------------------------------------------------------------------
// Byte/lexicographic order on entry names
// ---------------------------------------------------------------------------

/// Strict lexicographic order on character sequences, by code point.
pub open spec fn lex_lt(a: Seq<char>, b: Seq<char>) -> bool
    decreases a.len(),
{
    if b.len() == 0 {
        false
    } else if a.len() == 0 {
        true
    } else if a[0] != b[0] {
        (a[0] as u32) < (b[0] as u32)
    } else {
        lex_lt(a.drop_first(), b.drop_first())
    }
}

/// The order is irreflexive.
pub proof fn lemma_lex_lt_irreflexive(a: Seq<char>)
    ensures
        !lex_lt(a, a),
    decreases a.len(),
{
    if a.len() > 0 {
        lemma_lex_lt_irreflexive(a.drop_first());
    }
}

/// The order is total: of two distinct names, exactly one comes first.
pub proof fn lemma_lex_lt_trichotomy(a: Seq<char>, b: Seq<char>)
    ensures
        lex_lt(a, b) || lex_lt(b, a) || a =~= b,
        lex_lt(a, b) ==> !lex_lt(b, a),
    decreases a.len(),
{
    if a.len() > 0 && b.len() > 0 && a[0] != b[0] {
        assert(a[0] as u32 != b[0] as u32) by {
            vstd::utf8::char_u32_cast(a[0], a[0] as u32);
            vstd::utf8::char_u32_cast(b[0], b[0] as u32);
        }
    }
    if a.len() == 0 && b.len() == 0 {
        assert(a =~= b);
    } else if a.len() > 0 && b.len() > 0 && a[0] == b[0] {
        let ad = a.drop_first();
        let bd = b.drop_first();
        lemma_lex_lt_trichotomy(ad, bd);
        if ad =~= bd {
            assert forall|i: int| 0 <= i < a.len() implies a[i] == b[i] by {
                if i > 0 {
                    assert(a[i] == ad[i - 1]);
                    assert(b[i] == bd[i - 1]);
                }
            }
            assert(a =~= b);
        }
    }
}

/// The order is transitive.
pub proof fn lemma_lex_lt_transitive(a: Seq<char>, b: Seq<char>, c: Seq<char>)
    requires
        lex_lt(a, b),
        lex_lt(b, c),
    ensures
        lex_lt(a, c),
    decreases a.len(),
{
    if a.len() > 0 && b.len() > 0 && c.len() > 0 && a[0] == b[0] && b[0] == c[0] {
        lemma_lex_lt_transitive(a.drop_first(), b.drop_first(), c.drop_first());
    }
}

/// Compares two names in strict lexicographic order by code point.
pub fn str_lex_lt(a: &str, b: &str) -> (r: bool)
    ensures
        r == lex_lt(a@, b@),
{
    let alen = a.unicode_len();
    let blen = b.unicode_len();
    let mut i: usize = 0;
    proof {
        assert(a@.skip(0) =~= a@);
        assert(b@.skip(0) =~= b@);
    }
    loop
        invariant
            i <= alen,
            i <= blen,
            alen == a@.len(),
            blen == b@.len(),
            lex_lt(a@, b@) == lex_lt(a@.skip(i as int), b@.skip(i as int)),
        decreases alen - i,
    {
        if i >= blen {
            return false;
        }
        if i >= alen {
            return true;
        }
        let ca = a.get_char(i);
        let cb = b.get_char(i);
        if ca != cb {
            return (ca as u32) < (cb as u32);
        }
        proof {
            assert(a@.skip(i as int).drop_first() =~= a@.skip(i as int + 1));
            assert(b@.skip(i as int).drop_first() =~= b@.skip(i as int + 1));
        }
        i += 1;
    }
}

// ---------------------------------------------------------------------------
// Checksum
// ---------------------------------------------------------------------------

/// An opaque, immutable digest: a fixed-length lowercase hexadecimal string.
#[derive(Debug, Clone)]
pub struct Checksum(String);

impl View for Checksum {
    type V = Seq<char>;

    closed spec fn view(&self) -> Seq<char> {
        self.0@
    }
}

impl PartialEq for Checksum {
    /// Two digests are equal exactly when their strings are equal.
    fn eq(&self, other: &Checksum) -> (r: bool) {
        self.0 == other.0
    }
}

impl vstd::std_specs::cmp::PartialEqSpecImpl for Checksum {
    open spec fn obeys_eq_spec() -> bool {
        true
    }

    open spec fn eq_spec(&self, other: &Checksum) -> bool {
        self@ == other@
    }
}

impl Checksum {
    /// The digest as a string slice.
    pub fn get(&self) -> (r: &str)
        ensures
            r@ == self@,
    {
        self.0.as_str()
    }

    /// The digest as an owned string.
    pub fn string(&self) -> (r: String)
        ensures
            r@ == self@,
    {
        self.0.clone()
    }
}

// ---------------------------------------------------------------------------
// The subtree model
// ---------------------------------------------------------------------------

/// An in-memory model of a filesystem subtree: a file with its full byte
/// content, or a directory with its named children.
pub enum FsTree {
    File(Vec<u8>),
    Dir(Vec<FsEntry>),
}

/// One named child of a directory.
pub struct FsEntry {
    pub name: String,
    pub node: FsTree,
}

/// Entry names are strictly ascending: sorted, with no repeated name, as
/// the names at one directory level cannot repeat.
pub open spec fn entries_sorted(es: Seq<FsEntry>) -> bool {
    forall|i: int, j: int|
        0 <= i < j < es.len() ==> lex_lt(#[trigger] es[i].name@, #[trigger] es[j].name@)
}

impl FsTree {
    /// The canonical form of the model: every directory level lists its
    /// entries in strictly ascending name order, so that the order in
    /// which a filesystem enumerated them leaves no trace.
    pub open spec fn well_formed(self) -> bool
        decreases self,
    {
        match self {
            FsTree::File(_) => true,
            FsTree::Dir(es) => entries_sorted(es@) && (forall|i: int|
                0 <= i < es@.len() ==> (#[trigger] es@[i].node).well_formed()),
        }
    }
}

// ---------------------------------------------------------------------------
// Predicates
// ---------------------------------------------------------------------------

/// A pure acceptance test over a filesystem path string, deciding whether
/// an entry contributes to a fingerprint.
pub trait PathPredicate {
    /// What the test accepts, as a mathematical predicate on the path.
    spec fn spec_accepts(&self, path: Seq<char>) -> bool;

    /// Decides whether the entry at `path` participates.
    fn accepts(&self, path: &str) -> (r: bool)
        ensures
            r == self.spec_accepts(path@),
    ;
}

/// The default predicate: accepts every path.
pub struct AcceptAll;

impl PathPredicate for AcceptAll {
    open spec fn spec_accepts(&self, path: Seq<char>) -> bool {
        true
    }

    fn accepts(&self, path: &str) -> (r: bool) {
        true
    }
}

/// A predicate that rejects every path.
pub struct RejectAll;

impl PathPredicate for RejectAll {
    open spec fn spec_accepts(&self, path: Seq<char>) -> bool {
        false
    }

    fn accepts(&self, path: &str) -> (r: bool) {
        false
    }
}

/// A predicate that rejects exactly the entries with a given base name.
pub struct RejectName(pub String);

impl PathPredicate for RejectName {
    open spec fn spec_accepts(&self, path: Seq<char>) -> bool {
        base_name_of(path) != self.0@
    }

    fn accepts(&self, path: &str) -> (r: bool) {
        match file_base_name(path) {
            Some(n) => !(n == self.0),
            None => {
                proof {
                    if self.0@.len() == 0 {
                        assert(base_name_of(path@) =~= self.0@);
                    }
                }
                !self.0.as_str().is_empty()
            },
        }
    }
}

/// The acceptance test of a predicate, as a function on paths.
pub open spec fn accepts_fn<P: PathPredicate>(filter: &P) -> spec_fn(Seq<char>) -> bool {
    |q: Seq<char>| filter.spec_accepts(q)
}

/// The function on paths that accepts everything.
pub open spec fn accept_all_paths() -> spec_fn(Seq<char>) -> bool {
    |q: Seq<char>| true
}

// ---------------------------------------------------------------------------
// The walk and the fingerprint
// ---------------------------------------------------------------------------

/// The path of the child `name` of the directory at `dir`.
pub open spec fn child_path(dir: Seq<char>, name: Seq<char>) -> Seq<char> {
    dir + "/"@ + name
}

/// The hash input a subtree contributes to an enclosing directory digest:
/// the concatenation, in walk order, of the hex digest of every file the
/// predicate accepts. A rejected file contributes nothing; a rejected
/// directory is still descended into — only file-level acceptance matters.
pub open spec fn walk_input(t: FsTree, path: Seq<char>, accept: spec_fn(Seq<char>) -> bool) -> Seq<
    char,
>
    decreases t,
{
    match t {
        FsTree::File(content) => if accept(path) {
            sha256_hex_of(content@)
        } else {
            Seq::empty()
        },
        FsTree::Dir(es) => entries_walk_input(es@, path, accept),
    }
}

/// The concatenated hash input of a directory's entries, in order.
pub open spec fn entries_walk_input(
    es: Seq<FsEntry>,
    dir: Seq<char>,
    accept: spec_fn(Seq<char>) -> bool,
) -> Seq<char>
    decreases es,
{
    if es.len() == 0 {
        Seq::empty()
    } else {
        walk_input(es[0].node, child_path(dir, es[0].name@), accept) + entries_walk_input(
            es.drop_first(),
            dir,
            accept,
        )
    }
}

/// The bytes of an ASCII character sequence, code point by code point.
pub open spec fn ascii_bytes(s: Seq<char>) -> Seq<u8> {
    Seq::new(s.len(), |i: int| s[i] as u8)
}

/// The fingerprint of the subtree `t` rooted at `path`. A file's digest
/// is the hash of its raw content (the predicate is not consulted for the
/// root itself); a directory's digest is the hash of the bytes of the
/// concatenated accepted-file digests, which for no accepted files at all
/// is the digest of the empty byte sequence.
pub open spec fn fingerprint_of(
    t: FsTree,
    path: Seq<char>,
    accept: spec_fn(Seq<char>) -> bool,
) -> Seq<char> {
    match t {
        FsTree::File(content) => sha256_hex_of(content@),
        FsTree::Dir(_) => sha256_hex_of(ascii_bytes(walk_input(t, path, accept))),
    }
}

/// Joins a directory path and an entry name with a single separator.
pub fn join_path(dir: &str, name: &str) -> (r: String)
    ensures
        r@ == child_path(dir@, name@),
{
    let mut r = String::new();
    r.append(dir);
    r.append("/");
    r.append(name);
    r
}

/// Walking a list of entries extended by one more entry contributes the
/// list's input, then the new entry's.
proof fn lemma_entries_walk_input_push(
    es: Seq<FsEntry>,
    e: FsEntry,
    dir: Seq<char>,
    accept: spec_fn(Seq<char>) -> bool,
)
    ensures
        entries_walk_input(es.push(e), dir, accept) == entries_walk_input(es, dir, accept)
            + walk_input(e.node, child_path(dir, e.name@), accept),
    decreases es.len(),
{
    let w = walk_input(e.node, child_path(dir, e.name@), accept);
    if es.len() == 0 {
        assert(es.push(e).drop_first() =~= Seq::<FsEntry>::empty());
        assert(es.push(e)[0] == e);
        assert(es.push(e).len() == 1);
        assert(entries_walk_input(es.push(e), dir, accept) == walk_input(
            es.push(e)[0].node,
            child_path(dir, es.push(e)[0].name@),
            accept,
        ) + entries_walk_input(es.push(e).drop_first(), dir, accept));
        assert(entries_walk_input(Seq::<FsEntry>::empty(), dir, accept) == Seq::<char>::empty());
        assert(w + Seq::<char>::empty() =~= w);
        assert(entries_walk_input(es, dir, accept) + w =~= w);
    } else {
        assert(es.push(e).drop_first() =~= es.drop_first().push(e));
        lemma_entries_walk_input_push(es.drop_first(), e, dir, accept);
        assert(es.push(e)[0] == es[0]);
        assert(entries_walk_input(es, dir, accept) + walk_input(
            e.node,
            child_path(dir, e.name@),
            accept,
        ) =~= walk_input(es[0].node, child_path(dir, es[0].name@), accept) + (entries_walk_input(
            es.drop_first(),
            dir,
            accept,
        ) + walk_input(e.node, child_path(dir, e.name@), accept)));
    }
}

/// Appends to `out` the hex digest of every accepted file under `t`, in
/// walk order.
fn append_walk_digests<P: PathPredicate>(t: &FsTree, path: &str, filter: &P, out: &mut String)
    ensures
        final(out)@ == old(out)@ + walk_input(*t, path@, accepts_fn(filter)),
        all_lower_hex(old(out)@) ==> all_lower_hex(final(out)@),
    decreases *t,
{
    let ghost accept = accepts_fn(filter);
    match t {
        FsTree::File(content) => {
            if filter.accepts(path) {
                let d = sha256_hex(content.as_slice());
                out.append(d.as_str());
            } else {
                proof {
                    assert(out@ =~= old(out)@ + walk_input(*t, path@, accept));
                }
            }
        },
        FsTree::Dir(es) => {
            let ghost out0 = out@;
            let mut i: usize = 0;
            proof {
                assert(es@.take(0) =~= Seq::<FsEntry>::empty());
                assert(out@ =~= out0 + entries_walk_input(es@.take(0), path@, accept));
            }
            #[verifier::loop_isolation(false)]
            while i < es.len()
                invariant
                    i <= es@.len(),
                    out@ == out0 + entries_walk_input(es@.take(i as int), path@, accept),
                    all_lower_hex(out0) ==> all_lower_hex(out@),
                decreases es@.len() - i,
            {
                let child = join_path(path, es[i].name.as_str());
                append_walk_digests(&es[i].node, child.as_str(), filter, out);
                proof {
                    lemma_entries_walk_input_push(es@.take(i as int), es@[i as int], path@, accept);
                    assert(es@.take(i as int).push(es@[i as int]) =~= es@.take(i as int + 1));
                    assert(out0 + (entries_walk_input(es@.take(i as int), path@, accept)
                        + walk_input(
                        es@[i as int].node,
                        child_path(path@, es@[i as int].name@),
                        accept,
                    )) =~= (out0 + entries_walk_input(es@.take(i as int), path@, accept))
                        + walk_input(
                        es@[i as int].node,
                        child_path(path@, es@[i as int].name@),
                        accept,
                    ));
                }
                i += 1;
            }
            proof {
                assert(es@.take(es@.len() as int) =~= es@);
            }
        },
    }
}

// ---------------------------------------------------------------------------
// Fingerprinting
// ---------------------------------------------------------------------------

/// Fingerprinting over a subtree model rooted at a path.
pub trait PathChecksum {
    /// Whether the value is in the canonical form on which fingerprints
    /// are defined.
    spec fn fingerprint_ready(&self) -> bool;

    /// The subtree's digest with the default accept-everything predicate.
    fn calculate_sha256(&self, path: &str) -> (r: Checksum)
        requires
            self.fingerprint_ready(),
    ;

    /// The subtree's digest, honoring `filter`: a rejected file contributes
    /// nothing; a rejected directory is still descended into.
    fn calculate_sha256_filtered<P: PathPredicate>(&self, path: &str, filter: &P) -> (r: Checksum)
        requires
            self.fingerprint_ready(),
    ;

    /// One digest per immediate child, keyed by entry name; a single
    /// entry under the base name for a plain file.
    fn calculate_entries_sha256(&self, path: &str) -> (r: Manifest)
        requires
            self.fingerprint_ready(),
    ;
}

impl PathChecksum for FsTree {
    open spec fn fingerprint_ready(&self) -> bool {
        self.well_formed()
    }

    fn calculate_sha256(&self, path: &str) -> (r: Checksum)
        ensures
            r@ == fingerprint_of(*self, path@, accept_all_paths()),
            r@.len() == 64,
            all_lower_hex(r@),
    {
        let r = self.calculate_sha256_filtered(path, &AcceptAll);
        proof {
            assert(accepts_fn(&AcceptAll) =~= accept_all_paths());
        }
        r
    }

    fn calculate_sha256_filtered<P: PathPredicate>(&self, path: &str, filter: &P) -> (r: Checksum)
        ensures
            r@ == fingerprint_of(*self, path@, accepts_fn(filter)),
            r@.len() == 64,
            all_lower_hex(r@),
    {
        match self {
            FsTree::File(content) => Checksum(sha256_hex(content.as_slice())),
            FsTree::Dir(_) => {
                let mut input = String::new();
                append_walk_digests(self, path, filter, &mut input);
                proof {
                    assert(Seq::<char>::empty() + walk_input(*self, path@, accepts_fn(filter))
                        =~= walk_input(*self, path@, accepts_fn(filter)));
                    assert(vstd::utf8::is_ascii_chars(input@)) by {
                        assert(all_lower_hex(Seq::<char>::empty()));
                        assert forall|i: int| 0 <= i < input@.len() implies '\0' <= #[trigger]
                            input@[i] <= '\u{7f}' by {
                            assert(is_lower_hex_char(input@[i]));
                        }
                    }
                }
                let sref = input.as_str();
                let bytes = sref.as_bytes();
                proof {
                    vstd::string::is_ascii_spec_bytes(sref);
                    assert(bytes@ =~= ascii_bytes(input@));
                }
                Checksum(sha256_hex(bytes))
            },
        }
    }

    fn calculate_entries_sha256(&self, path: &str) -> (r: Manifest)
        ensures
            r@ == manifest_of(*self, path@),
            r.wf(),
            forall|i: int|
                0 <= i < r@.len() ==> (#[trigger] r@[i]).1.len() == 64 && all_lower_hex(r@[i].1),
    {
        match self {
            FsTree::File(_) => {
                let name = strfilename(path);
                let digest = self.calculate_sha256(path);
                let man = Manifest { entries: vec![(name, digest)] };
                proof {
                    assert(man@ =~= manifest_of(*self, path@));
                    assert(man@[0].1 == digest@);
                }
                man
            },
            FsTree::Dir(es) => {
                let mut v: Vec<(String, Checksum)> = Vec::new();
                let mut i: usize = 0;
                #[verifier::loop_isolation(false)]
                while i < es.len()
                    invariant
                        i <= es@.len(),
                        v@.len() == i,
                        forall|j: int|
                            0 <= j < i ==> ((#[trigger] v@[j]).0@, v@[j].1@) == entries_manifest(
                                es@,
                                path@,
                            )[j],
                        forall|j: int|
                            0 <= j < i ==> (#[trigger] v@[j]).1@.len() == 64 && all_lower_hex(
                                v@[j].1@,
                            ),
                    decreases es@.len() - i,
                {
                    let child = join_path(path, es[i].name.as_str());
                    let digest = es[i].node.calculate_sha256(child.as_str());
                    let name = es[i].name.clone();
                    v.push((name, digest));
                    i += 1;
                }
                let man = Manifest { entries: v };
                proof {
                    assert(man@ =~= manifest_of(*self, path@));
                }
                man
            },
        }
    }
}

// ---------------------------------------------------------------------------
// Manifest
// ---------------------------------------------------------------------------

/// Keys are strictly ascending: sorted, with no repeated key.
pub open spec fn manifest_keys_sorted(m: Seq<(Seq<char>, Seq<char>)>) -> bool {
    forall|i: int, j: int| 0 <= i < j < m.len() ==> lex_lt(#[trigger] m[i].0, #[trigger] m[j].0)
}

/// Inserting a pair into a key-sorted list of pairs: before the first
/// larger key, replacing an equal key.
pub open spec fn manifest_insert(
    m: Seq<(Seq<char>, Seq<char>)>,
    k: Seq<char>,
    v: Seq<char>,
) -> Seq<(Seq<char>, Seq<char>)>
    decreases m.len(),
{
    if m.len() == 0 {
        seq![(k, v)]
    } else if lex_lt(k, m[0].0) {
        seq![(k, v)] + m
    } else if k == m[0].0 {
        seq![(k, v)] + m.drop_first()
    } else {
        seq![m[0]] + manifest_insert(m.drop_first(), k, v)
    }
}

/// A one-level mapping from entry name to digest. Keys are unique and are
/// held in ascending name order, so equal manifests render identically.
pub struct Manifest {
    entries: Vec<(String, Checksum)>,
}

impl View for Manifest {
    type V = Seq<(Seq<char>, Seq<char>)>;

    closed spec fn view(&self) -> Seq<(Seq<char>, Seq<char>)> {
        self.entries@.map_values(|e: (String, Checksum)| (e.0@, e.1@))
    }
}

impl Manifest {
    /// Whether the keys are sorted and unique, as construction guarantees.
    pub open spec fn wf(&self) -> bool {
        manifest_keys_sorted(self@)
    }

    /// An empty manifest.
    pub fn new() -> (m: Manifest)
        ensures
            m@ =~= Seq::<(Seq<char>, Seq<char>)>::empty(),
            m.wf(),
    {
        Manifest { entries: Vec::new() }
    }

    /// The number of entries.
    pub fn len(&self) -> (n: usize)
        ensures
            n == self@.len(),
    {
        self.entries.len()
    }

    /// The name of the entry at position `i`.
    pub fn name_at(&self, i: usize) -> (r: String)
        requires
            i < self@.len(),
        ensures
            r@ == self@[i as int].0,
    {
        self.entries[i].0.clone()
    }

    /// The digest of the entry at position `i`.
    pub fn checksum_at(&self, i: usize) -> (r: Checksum)
        requires
            i < self@.len(),
        ensures
            r@ == self@[i as int].1,
    {
        Checksum(self.entries[i].1.string())
    }

    /// Looks a name up; returns its digest exactly when the name is a key.
    pub fn get(&self, name: &str) -> (r: Option<Checksum>)
        ensures
            r is Some <==> (exists|i: int| 0 <= i < self@.len() && #[trigger] self@[i].0 == name@),
            r is Some ==> exists|i: int|
                0 <= i < self@.len() && #[trigger] self@[i].0 == name@ && self@[i].1 == r->0@,
    {
        let key = name.to_owned();
        let mut i: usize = 0;
        while i < self.entries.len()
            invariant
                i <= self@.len(),
                key@ == name@,
                forall|j: int| 0 <= j < i ==> #[trigger] self@[j].0 != name@,
            decreases self@.len() - i,
        {
            proof {
                assert(self@[i as int] == (self.entries@[i as int].0@, self.entries@[i as int].1@));
            }
            if self.entries[i].0 == key {
                proof {
                    assert((i as int) < self@.len() && self@[i as int].0 == name@);
                }
                return Some(Checksum(self.entries[i].1.string()));
            }
            i += 1;
        }
        None
    }

    /// The position of the first key not below `name`.
    fn lower_bound(&self, name: &str) -> (pos: usize)
        ensures
            pos <= self@.len(),
            forall|j: int| 0 <= j < pos ==> lex_lt(#[trigger] self@[j].0, name@),
            pos < self@.len() ==> !lex_lt(self@[pos as int].0, name@),
    {
        let mut i: usize = 0;
        loop
            invariant
                i <= self@.len(),
                forall|j: int| 0 <= j < i ==> lex_lt(#[trigger] self@[j].0, name@),
            decreases self@.len() - i,
        {
            if i >= self.entries.len() {
                return i;
            }
            if !str_lex_lt(self.entries[i].0.as_str(), name) {
                return i;
            }
            i += 1;
        }
    }

    /// Adds `digest` under `name`, keeping keys sorted; an existing entry
    /// with the same name is replaced.
    pub fn insert(&mut self, name: String, digest: Checksum)
        ensures
            final(self)@ == manifest_insert(old(self)@, name@, digest@),
    {
        let pos = self.lower_bound(name.as_str());
        proof {
            lemma_manifest_insert_at(self@, name@, digest@, pos as int);
        }
        if pos < self.entries.len() && self.entries[pos].0 == name {
            let ghost m0 = self@;
            self.entries.remove(pos);
            self.entries.insert(pos, (name, digest));
            proof {
                assert(self@ =~= m0.take(pos as int) + seq![(name@, digest@)] + m0.skip(
                    pos as int + 1,
                ));
                assert(m0.skip(pos as int).drop_first() =~= m0.skip(pos as int + 1));
                assert(m0.take(pos as int) + (seq![(name@, digest@)] + m0.skip(pos as int + 1))
                    =~= m0.take(pos as int) + seq![(name@, digest@)] + m0.skip(pos as int + 1));
            }
        } else {
            let ghost m0 = self@;
            self.entries.insert(pos, (name, digest));
            proof {
                lemma_lex_lt_trichotomy(name@, m0[pos as int].0);
                assert(self@ =~= m0.take(pos as int) + seq![(name@, digest@)] + m0.skip(
                    pos as int,
                ));
                assert(m0.take(pos as int) + (seq![(name@, digest@)] + m0.skip(pos as int))
                    =~= m0.take(pos as int) + seq![(name@, digest@)] + m0.skip(pos as int));
            }
        }
    }
}

/// Inserting behind a strictly smaller prefix leaves the prefix in place.
proof fn lemma_manifest_insert_at(
    m: Seq<(Seq<char>, Seq<char>)>,
    k: Seq<char>,
    v: Seq<char>,
    pos: int,
)
    requires
        0 <= pos <= m.len(),
        forall|j: int| 0 <= j < pos ==> lex_lt(#[trigger] m[j].0, k),
    ensures
        manifest_insert(m, k, v) == m.take(pos) + manifest_insert(m.skip(pos), k, v),
    decreases pos,
{
    if pos == 0 {
        assert(m.skip(0) =~= m);
        assert(m.take(0) + manifest_insert(m, k, v) =~= manifest_insert(m, k, v));
    } else {
        lemma_lex_lt_irreflexive(m[0].0);
        lemma_lex_lt_trichotomy(k, m[0].0);
        let md = m.drop_first();
        assert(forall|j: int| 0 <= j < pos - 1 ==> lex_lt(#[trigger] md[j].0, k));
        lemma_manifest_insert_at(md, k, v, pos - 1);
        assert(md.skip(pos - 1) =~= m.skip(pos));
        assert(md.take(pos - 1) =~= m.take(pos).drop_first());
        assert(manifest_insert(m, k, v) == seq![m[0]] + manifest_insert(md, k, v));
        assert(seq![m[0]] + (md.take(pos - 1) + manifest_insert(m.skip(pos), k, v)) =~= m.take(pos)
            + manifest_insert(m.skip(pos), k, v));
    }
}

/// Insertion keeps keys strictly sorted.
pub proof fn lemma_manifest_insert_sorted(m: Seq<(Seq<char>, Seq<char>)>, k: Seq<char>, v: Seq<char>)
    requires
        manifest_keys_sorted(m),
    ensures
        manifest_keys_sorted(manifest_insert(m, k, v)),
    decreases m.len(),
{
    let r = manifest_insert(m, k, v);
    if m.len() == 0 {
    } else if lex_lt(k, m[0].0) {
        assert forall|i: int, j: int| 0 <= i < j < r.len() implies lex_lt(r[i].0, r[j].0) by {
            if i == 0 {
                if j > 1 {
                    lemma_lex_lt_transitive(k, m[0].0, m[j - 1].0);
                }
            }
        }
    } else if k == m[0].0 {
        assert forall|i: int, j: int| 0 <= i < j < r.len() implies lex_lt(r[i].0, r[j].0) by {
            assert(r[j] == m[j]);
            if i > 0 {
                assert(r[i] == m[i]);
            }
        }
    } else {
        lemma_lex_lt_trichotomy(k, m[0].0);
        let rd = manifest_insert(m.drop_first(), k, v);
        lemma_manifest_insert_sorted(m.drop_first(), k, v);
        lemma_manifest_insert_keys(m.drop_first(), k, v);
        assert forall|i: int, j: int| 0 <= i < j < r.len() implies lex_lt(r[i].0, r[j].0) by {
            if i == 0 {
                assert(r[j] == rd[j - 1]);
                if rd[j - 1].0 == k {
                    assert(lex_lt(m[0].0, k));
                } else {
                    let x = choose|x: int|
                        0 <= x < m.drop_first().len() && #[trigger] m.drop_first()[x].0 == rd[j
                            - 1].0;
                    assert(m[x + 1].0 == rd[j - 1].0);
                }
            } else {
                assert(r[i] == rd[i - 1] && r[j] == rd[j - 1]);
            }
        }
    }
}

/// Every key after an insertion is the new key or one already present.
proof fn lemma_manifest_insert_keys(m: Seq<(Seq<char>, Seq<char>)>, k: Seq<char>, v: Seq<char>)
    ensures
        forall|i: int|
            0 <= i < manifest_insert(m, k, v).len() ==> (#[trigger] manifest_insert(m, k, v)[i].0
                == k || exists|j: int| 0 <= j < m.len() && #[trigger] m[j].0 == manifest_insert(
                m,
                k,
                v,
            )[i].0),
    decreases m.len(),
{
    let r = manifest_insert(m, k, v);
    if m.len() == 0 {
    } else if lex_lt(k, m[0].0) {
        assert forall|i: int| 0 <= i < r.len() && r[i].0 != k implies exists|j: int|
            0 <= j < m.len() && #[trigger] m[j].0 == r[i].0 by {
            assert(m[i - 1].0 == r[i].0);
        }
    } else if k == m[0].0 {
        assert forall|i: int| 0 <= i < r.len() && r[i].0 != k implies exists|j: int|
            0 <= j < m.len() && #[trigger] m[j].0 == r[i].0 by {
            assert(m[i].0 == r[i].0);
        }
    } else {
        lemma_manifest_insert_keys(m.drop_first(), k, v);
        assert forall|i: int| 0 <= i < r.len() && r[i].0 != k implies exists|j: int|
            0 <= j < m.len() && #[trigger] m[j].0 == r[i].0 by {
            if i == 0 {
                assert(m[0].0 == r[0].0);
            } else {
                let rd = manifest_insert(m.drop_first(), k, v);
                assert(r[i] == rd[i - 1]);
                let x = choose|x: int|
                    0 <= x < m.drop_first().len() && #[trigger] m.drop_first()[x].0 == rd[i - 1].0;
                assert(m[x + 1].0 == r[i].0);
            }
        }
    }
}

// ---------------------------------------------------------------------------
// Persistence: the flat on-disk manifest format
// ---------------------------------------------------------------------------

/// No character of the sequence is `c`.
pub open spec fn no_char(s: Seq<char>, c: char) -> bool {
    forall|i: int| 0 <= i < s.len() ==> s[i] != c
}

/// One line per entry: the name, one space, the digest, one line break.
pub open spec fn rendered_lines(m: Seq<(Seq<char>, Seq<char>)>) -> Seq<char>
    decreases m.len(),
{
    if m.len() == 0 {
        Seq::empty()
    } else {
        m[0].0 + " "@ + m[0].1 + "\n"@ + rendered_lines(m.drop_first())
    }
}

/// The index of the first occurrence of `c`, if any.
pub open spec fn find_char(s: Seq<char>, c: char) -> Option<int>
    decreases s.len(),
{
    if s.len() == 0 {
        None
    } else if s[0] == c {
        Some(0)
    } else {
        match find_char(s.drop_first(), c) {
            Option::None => None,
            Option::Some(i) => Some(i + 1),
        }
    }
}

/// A found index lies inside the sequence, at an occurrence of `c`.
pub proof fn lemma_find_char_bounds(s: Seq<char>, c: char)
    ensures
        find_char(s, c) matches Some(i) ==> 0 <= i < s.len() && s[i] == c,
    decreases s.len(),
{
    if s.len() > 0 && s[0] != c {
        lemma_find_char_bounds(s.drop_first(), c);
    }
}

/// A sequence without `c` has no first occurrence of it.
pub proof fn lemma_find_char_none(s: Seq<char>, c: char)
    requires
        no_char(s, c),
    ensures
        find_char(s, c) is None,
    decreases s.len(),
{
    if s.len() > 0 {
        assert(no_char(s.drop_first(), c)) by {
            assert(forall|i: int|
                0 <= i < s.drop_first().len() ==> #[trigger] s.drop_first()[i] == s[i + 1]);
        }
        lemma_find_char_none(s.drop_first(), c);
    }
}

/// The first occurrence of `c` behind a `c`-free prefix is right after it.
pub proof fn lemma_find_char_concat(a: Seq<char>, b: Seq<char>, c: char)
    requires
        no_char(a, c),
        b.len() > 0,
        b[0] == c,
    ensures
        find_char(a + b, c) == Some(a.len() as int),
    decreases a.len(),
{
    if a.len() == 0 {
        assert(a + b =~= b);
    } else {
        assert((a + b)[0] == a[0]);
        assert((a + b).drop_first() =~= a.drop_first() + b);
        lemma_find_char_concat(a.drop_first(), b, c);
    }
}

/// Splits a line on its first space into a name and a digest.
pub open spec fn parse_line(line: Seq<char>) -> Option<(Seq<char>, Seq<char>)> {
    match find_char(line, ' ') {
        Option::None => None,
        Option::Some(i) => Some((line.take(i), line.skip(i + 1))),
    }
}

/// Reads manifest text back as pairs: one `<name> <digest>` per line.
pub open spec fn parse_lines(s: Seq<char>) -> Option<Seq<(Seq<char>, Seq<char>)>>
    decreases s.len(),
    via parse_lines_decreases
{
    if s.len() == 0 {
        Some(Seq::empty())
    } else {
        match find_char(s, '\n') {
            Option::None => None,
            Option::Some(i) => match (parse_line(s.take(i)), parse_lines(s.skip(i + 1))) {
                (Option::Some(e), Option::Some(es)) => Some(seq![e] + es),
                _ => None,
            },
        }
    }
}

#[via_fn]
proof fn parse_lines_decreases(s: Seq<char>) {
    lemma_find_char_bounds(s, '\n');
}

/// A manifest that the flat format can carry faithfully: names hold no
/// space and no line break, digests no line break.
pub open spec fn manifest_persistable(m: Seq<(Seq<char>, Seq<char>)>) -> bool {
    forall|i: int|
        0 <= i < m.len() ==> no_char(#[trigger] m[i].0, ' ') && no_char(m[i].0, '\n') && no_char(
            m[i].1,
            '\n',
        )
}

/// Persistence round trip: rendering a persistable manifest and parsing
/// the text back recovers exactly the entries that were written.
pub proof fn lemma_persistence_round_trip(m: Seq<(Seq<char>, Seq<char>)>)
    requires
        manifest_persistable(m),
    ensures
        parse_lines(rendered_lines(m)) == Some(m),
    decreases m.len(),
{
    reveal_strlit(" ");
    reveal_strlit("\n");
    if m.len() == 0 {
        assert(parse_lines(rendered_lines(m)) == Some(Seq::<(Seq<char>, Seq<char>)>::empty()));
        assert(Seq::<(Seq<char>, Seq<char>)>::empty() =~= m);
    } else {
        let name = m[0].0;
        let dig = m[0].1;
        let rest = rendered_lines(m.drop_first());
        let s = rendered_lines(m);
        let line = name + " "@ + dig;
        assert(s =~= line + ("\n"@ + rest));
        assert(no_char(line, '\n')) by {
            assert(" "@.len() == 1 && " "@[0] == ' ');
            assert forall|i: int| 0 <= i < line.len() implies line[i] != '\n' by {
                if i < name.len() {
                    assert(line[i] == name[i]);
                } else if i == name.len() {
                    assert(line[i] == ' ');
                } else {
                    assert(line[i] == dig[i - name.len() - 1]);
                }
            }
        }
        assert(("\n"@ + rest).len() > 0 && ("\n"@ + rest)[0] == '\n');
        lemma_find_char_concat(line, "\n"@ + rest, '\n');
        assert(find_char(s, '\n') == Some(line.len() as int));
        assert(s.take(line.len() as int) =~= line);
        assert(s.skip(line.len() as int + 1) =~= rest);
        assert(dig.len() > 0 ==> (" "@ + dig)[1] == dig[0]);
        assert(find_char(line, ' ') == Some(name.len() as int)) by {
            assert((" "@ + dig).len() > 0 && (" "@ + dig)[0] == ' ');
            assert(line =~= name + (" "@ + dig));
            lemma_find_char_concat(name, " "@ + dig, ' ');
        }
        assert(line.take(name.len() as int) =~= name);
        assert(line.skip(name.len() as int + 1) =~= dig);
        assert(parse_line(line) == Some((name, dig)));
        lemma_persistence_round_trip(m.drop_first());
        assert(seq![(name, dig)] + m.drop_first() =~= m);
    }
}

/// A manifest built by inserting a list of pairs in order, as reading
/// a manifest file back does.
pub open spec fn manifest_from_pairs(ps: Seq<(Seq<char>, Seq<char>)>) -> Seq<
    (Seq<char>, Seq<char>),
>
    decreases ps.len(),
{
    if ps.len() == 0 {
        Seq::empty()
    } else {
        manifest_insert(manifest_from_pairs(ps.drop_last()), ps.last().0, ps.last().1)
    }
}

/// Inserting an already key-sorted list of pairs in order rebuilds it
/// exactly.
pub proof fn lemma_from_pairs_identity(m: Seq<(Seq<char>, Seq<char>)>)
    requires
        manifest_keys_sorted(m),
    ensures
        manifest_from_pairs(m) == m,
    decreases m.len(),
{
    if m.len() > 0 {
        let md = m.drop_last();
        assert(manifest_keys_sorted(md)) by {
            assert(forall|i: int| 0 <= i < md.len() ==> #[trigger] md[i] == m[i]);
        }
        lemma_from_pairs_identity(md);
        assert(forall|j: int| 0 <= j < md.len() ==> lex_lt((#[trigger] md[j]).0, m.last().0));
        lemma_manifest_insert_at(md, m.last().0, m.last().1, md.len() as int);
        assert(md.skip(md.len() as int) =~= Seq::<(Seq<char>, Seq<char>)>::empty());
        assert(md.take(md.len() as int) =~= md);
        assert(md + seq![m.last()] =~= m);
    }
}

/// The position of the first occurrence of `c` in `s` between `from`
/// and `to`, if any.
pub(crate) fn scan_char_range(s: &str, c: char, from: usize, to: usize) -> (r: Option<usize>)
    requires
        from <= to <= s@.len(),
    ensures
        r matches Some(i) ==> from <= i < to && find_char(s@.subrange(from as int, to as int), c)
            == Some(i - from as int),
        r is None ==> find_char(s@.subrange(from as int, to as int), c) is None,
{
    let mut i: usize = from;
    #[verifier::loop_isolation(false)]
    loop
        invariant
            from <= i <= to,
            no_char(s@.subrange(from as int, i as int), c),
        decreases to - i,
    {
        if i >= to {
            proof {
                lemma_find_char_none(s@.subrange(from as int, to as int), c);
            }
            return None;
        }
        if s.get_char(i) == c {
            proof {
                assert(s@.subrange(from as int, to as int) =~= s@.subrange(from as int, i as int)
                    + s@.subrange(i as int, to as int));
                assert(s@.subrange(i as int, to as int).len() > 0 && s@.subrange(
                    i as int,
                    to as int,
                )[0] == c);
                lemma_find_char_concat(
                    s@.subrange(from as int, i as int),
                    s@.subrange(i as int, to as int),
                    c,
                );
            }
            return Some(i);
        }
        proof {
            assert(s@.subrange(from as int, i as int + 1) =~= s@.subrange(
                from as int,
                i as int,
            ).push(s@[i as int]));
        }
        i += 1;
    }
}

impl Manifest {
    /// Reads manifest text back, one `<name> <digest>` pair per line,
    /// splitting each line on its first space, and gathers the pairs
    /// into a manifest in written order; nothing where the text is not
    /// in the flat format.
    pub fn parse(text: &str) -> (r: Option<Manifest>)
        ensures
            r is Some <==> parse_lines(text@) is Some,
            r matches Some(m) ==> parse_lines(text@) matches Some(ps) && m@ == manifest_from_pairs(
                ps,
            ) && m.wf(),
    {
        let n = text.unicode_len();
        let mut pos: usize = 0;
        let mut m = Manifest::new();
        let ghost mut ps: Seq<(Seq<char>, Seq<char>)> = Seq::empty();
        proof {
            assert(text@.skip(0) =~= text@);
        }
        #[verifier::loop_isolation(false)]
        loop
            invariant
                pos <= n,
                m@ == manifest_from_pairs(ps),
                manifest_keys_sorted(m@),
                parse_lines(text@) == (match parse_lines(text@.skip(pos as int)) {
                    Option::Some(rest) => Option::Some(ps + rest),
                    Option::None => Option::None::<Seq<(Seq<char>, Seq<char>)>>,
                }),
            decreases n - pos,
        {
            if pos >= n {
                proof {
                    assert(text@.skip(pos as int) =~= Seq::<char>::empty());
                    assert(ps + Seq::<(Seq<char>, Seq<char>)>::empty() =~= ps);
                }
                return Some(m);
            }
            let ghost rem = text@.skip(pos as int);
            let nl = match scan_char_range(text, '\n', pos, n) {
                Some(nl) => nl,
                None => {
                    proof {
                        assert(rem =~= text@.subrange(pos as int, n as int));
                    }
                    return None;
                },
            };
            proof {
                assert(rem =~= text@.subrange(pos as int, n as int));
                assert(rem.len() > 0);
            }
            let sp = match scan_char_range(text, ' ', pos, nl) {
                Some(sp) => sp,
                None => {
                    proof {
                        assert(rem.take(nl - pos) =~= text@.subrange(pos as int, nl as int));
                    }
                    return None;
                },
            };
            let name = text.substring_char(pos, sp).to_owned();
            let digest = text.substring_char(sp + 1, nl).to_owned();
            proof {
                let line = rem.take(nl - pos);
                assert(line =~= text@.subrange(pos as int, nl as int));
                assert(line.take(sp - pos) =~= text@.subrange(pos as int, sp as int));
                assert(line.skip(sp - pos + 1) =~= text@.subrange(sp as int + 1, nl as int));
                assert(rem.skip(nl - pos + 1) =~= text@.skip(nl as int + 1));
                lemma_manifest_insert_sorted(m@, name@, digest@);
            }
            let ghost e = (name@, digest@);
            m.insert(name, Checksum(digest));
            proof {
                assert(ps.push(e).drop_last() =~= ps);
                assert(ps.push(e).last() == e);
                ps = ps.push(e);
            }
            pos = nl + 1;
            proof {
                match parse_lines(text@.skip(pos as int)) {
                    Option::Some(rest) => {
                        assert(ps.drop_last() + (seq![e] + rest) =~= ps + rest);
                    },
                    Option::None => {
                    },
                }
            }
        }
    }
}

/// Persistence round trip, end to end: the rendered text of a sorted,
/// persistable manifest parses back to exactly the pairs written, and
/// gathering those pairs in written order rebuilds the manifest.
pub proof fn lemma_save_load_identity(m: Seq<(Seq<char>, Seq<char>)>)
    requires
        manifest_keys_sorted(m),
        manifest_persistable(m),
    ensures
        parse_lines(rendered_lines(m)) == Some(m),
        manifest_from_pairs(m) == m,
{
    lemma_persistence_round_trip(m);
    lemma_from_pairs_identity(m);
}

/// Digest strings never hold a space or a line break.
pub proof fn lemma_hex_digest_persistable(s: Seq<char>)
    requires
        all_lower_hex(s),
    ensures
        no_char(s, ' '),
        no_char(s, '\n'),
{
    assert forall|i: int| 0 <= i < s.len() implies s[i] != ' ' && s[i] != '\n' by {
        assert(is_lower_hex_char(s[i]));
    }
}

/// Rendering a set of named checksums in the flat manifest file format:
/// one line per entry, the name, a single space, the digest, a line
/// break. Writing the rendered text to its destination is the caller's
/// I/O step; the whole file is replaced, never merged.
pub trait ChecksumsToFile {
    /// The exact text that persists the checksums.
    fn checksum_file_content(&self) -> String;
}

/// Rendering one more entry appends its line.
proof fn lemma_rendered_lines_push(m: Seq<(Seq<char>, Seq<char>)>, e: (Seq<char>, Seq<char>))
    ensures
        rendered_lines(m.push(e)) == rendered_lines(m) + (e.0 + " "@ + e.1 + "\n"@),
    decreases m.len(),
{
    let line = e.0 + " "@ + e.1 + "\n"@;
    if m.len() == 0 {
        assert(m.push(e)[0] == e);
        assert(m.push(e).drop_first() =~= Seq::<(Seq<char>, Seq<char>)>::empty());
        assert(rendered_lines(m.push(e)) == e.0 + " "@ + e.1 + "\n"@ + rendered_lines(
            Seq::<(Seq<char>, Seq<char>)>::empty(),
        ));
        assert(e.0 + " "@ + e.1 + "\n"@ + Seq::<char>::empty() =~= line);
        assert(rendered_lines(m) + line =~= line);
    } else {
        assert(m.push(e)[0] == m[0]);
        assert(m.push(e).drop_first() =~= m.drop_first().push(e));
        lemma_rendered_lines_push(m.drop_first(), e);
        assert(m[0].0 + " "@ + m[0].1 + "\n"@ + (rendered_lines(m.drop_first()) + line) =~= (m[0].0
            + " "@ + m[0].1 + "\n"@ + rendered_lines(m.drop_first())) + line);
    }
}

impl ChecksumsToFile for Manifest {
    fn checksum_file_content(&self) -> (r: String)
        ensures
            r@ == rendered_lines(self@),
    {
        let mut out = String::new();
        let mut i: usize = 0;
        proof {
            assert(self@.take(0) =~= Seq::<(Seq<char>, Seq<char>)>::empty());
        }
        #[verifier::loop_isolation(false)]
        while i < self.entries.len()
            invariant
                i <= self@.len(),
                out@ == rendered_lines(self@.take(i as int)),
            decreases self@.len() - i,
        {
            out.append(self.entries[i].0.as_str());
            out.append(" ");
            out.append(self.entries[i].1.get());
            out.append("\n");
            proof {
                assert(self@[i as int] == (self.entries@[i as int].0@, self.entries@[i as int].1@));
                lemma_rendered_lines_push(self@.take(i as int), self@[i as int]);
                assert(self@.take(i as int).push(self@[i as int]) =~= self@.take(i as int + 1));
                assert(out@ =~= rendered_lines(self@.take(i as int)) + (self@[i as int].0 + " "@
                    + self@[i as int].1 + "\n"@));
            }
            i += 1;
        }
        proof {
            assert(self@.take(self@.len() as int) =~= self@);
        }
        out
    }
}

// ---------------------------------------------------------------------------
// Base names and the per-entry manifest
// ---------------------------------------------------------------------------

/// The fallback entry name where a path has no usable final component.
pub open spec fn unknown_name() -> Seq<char> {
    "unknown"@
}

/// The path without its trailing separators.
pub open spec fn strip_trailing_slashes(p: Seq<char>) -> Seq<char>
    decreases p.len(),
{
    if p.len() > 0 && p.last() == '/' {
        strip_trailing_slashes(p.drop_last())
    } else {
        p
    }
}

/// The longest separator-free suffix of the path.
pub open spec fn suffix_after_slash(p: Seq<char>) -> Seq<char>
    decreases p.len(),
{
    if p.len() == 0 {
        p
    } else if p.last() == '/' {
        Seq::empty()
    } else {
        suffix_after_slash(p.drop_last()).push(p.last())
    }
}

/// Stripping trailing separators never lengthens a path.
pub proof fn lemma_strip_trailing_slashes_len(p: Seq<char>)
    ensures
        strip_trailing_slashes(p).len() <= p.len(),
    decreases p.len(),
{
    if p.len() > 0 && p.last() == '/' {
        lemma_strip_trailing_slashes_len(p.drop_last());
    }
}

/// The path without its trailing separators and without trailing
/// current-directory components: a final `.` standing alone as a
/// component names no entry and is skipped, exactly as looking a
/// path's file name up skips it.
pub open spec fn strip_trailing_cur_dirs(p: Seq<char>) -> Seq<char>
    decreases p.len(),
    via strip_trailing_cur_dirs_decreases
{
    let t = strip_trailing_slashes(p);
    if t.len() > 0 && t.last() == '.' && (t.len() == 1 || t[t.len() - 2] == '/') {
        strip_trailing_cur_dirs(t.drop_last())
    } else {
        t
    }
}

#[via_fn]
proof fn strip_trailing_cur_dirs_decreases(p: Seq<char>) {
    lemma_strip_trailing_slashes_len(p);
}

/// The base name of a path: the final component once trailing
/// separators and trailing current-directory components are stripped;
/// empty where no component is left or where the final component only
/// points at the parent directory.
pub open spec fn base_name_of(p: Seq<char>) -> Seq<char> {
    let n = suffix_after_slash(strip_trailing_cur_dirs(p));
    if n =~= ".."@ {
        Seq::empty()
    } else {
        n
    }
}

/// The base name of a path, or the fixed fallback name where the path
/// has none.
pub open spec fn file_name_or_unknown(p: Seq<char>) -> Seq<char> {
    if base_name_of(p).len() == 0 {
        unknown_name()
    } else {
        base_name_of(p)
    }
}

/// The end of the path's prefix of length `n` once trailing separators
/// are stripped.
fn scan_name_end(path: &str, n: usize) -> (e: usize)
    requires
        n <= path@.len(),
    ensures
        e <= n,
        strip_trailing_slashes(path@.take(n as int)) == path@.take(e as int),
    decreases n,
{
    let mut e: usize = n;
    #[verifier::loop_isolation(false)]
    loop
        invariant
            e <= n,
            strip_trailing_slashes(path@.take(n as int)) == strip_trailing_slashes(
                path@.take(e as int),
            ),
        decreases e,
    {
        if e == 0 {
            proof {
                assert(path@.take(0) =~= Seq::<char>::empty());
            }
            return e;
        }
        proof {
            assert(path@.take(e as int).last() == path@[e as int - 1]);
            assert(path@.take(e as int).drop_last() =~= path@.take(e as int - 1));
        }
        if path.get_char(e - 1) != '/' {
            return e;
        }
        e -= 1;
    }
}

/// The end of the path's prefix of length `n` once trailing separators
/// and trailing current-directory components are stripped.
fn scan_component_end(path: &str, n: usize) -> (e: usize)
    requires
        n <= path@.len(),
    ensures
        e <= n,
        strip_trailing_cur_dirs(path@.take(n as int)) == path@.take(e as int),
    decreases n,
{
    let t = scan_name_end(path, n);
    proof {
        if t > 0 {
            assert(path@.take(t as int).last() == path@[t as int - 1]);
            if t > 1 {
                assert(path@.take(t as int)[t as int - 2] == path@[t as int - 2]);
            }
        }
    }
    if t > 0 && path.get_char(t - 1) == '.' {
        let lone = if t == 1 {
            true
        } else {
            path.get_char(t - 2) == '/'
        };
        if lone {
            proof {
                assert(path@.take(t as int).drop_last() =~= path@.take(t as int - 1));
            }
            return scan_component_end(path, t - 1);
        }
    }
    t
}

/// The start of the separator-free suffix of the trimmed path.
fn scan_name_start(path: &str, e: usize) -> (s: usize)
    requires
        e <= path@.len(),
    ensures
        s <= e,
        suffix_after_slash(path@.take(e as int)) =~= path@.subrange(s as int, e as int),
    decreases e,
{
    let ghost t = path@.take(e as int);
    let mut s: usize = e;
    proof {
        assert(t.take(e as int) =~= t);
        assert(t.skip(e as int) =~= Seq::<char>::empty());
        assert(suffix_after_slash(t.take(e as int)) + t.skip(e as int) =~= suffix_after_slash(t));
    }
    #[verifier::loop_isolation(false)]
    loop
        invariant
            s <= e,
            t == path@.take(e as int),
            suffix_after_slash(t) == suffix_after_slash(t.take(s as int)) + t.skip(s as int),
        decreases s,
    {
        if s == 0 {
            proof {
                assert(t.take(0) =~= Seq::<char>::empty());
                assert(suffix_after_slash(t) =~= t.skip(0));
                assert(t.skip(0) =~= path@.subrange(0, e as int));
            }
            return s;
        }
        proof {
            assert(t.take(s as int).last() == path@[s as int - 1]);
        }
        if path.get_char(s - 1) == '/' {
            proof {
                assert(suffix_after_slash(t.take(s as int)) =~= Seq::<char>::empty());
                assert(suffix_after_slash(t) =~= t.skip(s as int));
                assert(t.skip(s as int) =~= path@.subrange(s as int, e as int));
            }
            return s;
        }
        proof {
            assert(t.take(s as int).drop_last() =~= t.take(s as int - 1));
            assert(suffix_after_slash(t.take(s as int - 1)).push(t.take(s as int).last()) + t.skip(
                s as int,
            ) =~= suffix_after_slash(t.take(s as int - 1)) + t.skip(s as int - 1));
        }
        s -= 1;
    }
}

/// The base name of a path string, or the fixed fallback name.
pub fn strfilename(path: &str) -> (r: String)
    ensures
        r@ == file_name_or_unknown(path@),
{
    match file_base_name(path) {
        Some(n) => n,
        None => "unknown".to_owned(),
    }
}

/// The base name of a path string, where one exists.
pub fn file_base_name(path: &str) -> (r: Option<String>)
    ensures
        r is Some <==> base_name_of(path@).len() > 0,
        r matches Some(n) ==> n@ == base_name_of(path@),
{
    let n = path.unicode_len();
    let e = scan_component_end(path, n);
    let s = scan_name_start(path, e);
    let ghost t = strip_trailing_cur_dirs(path@);
    proof {
        assert(path@.take(n as int) =~= path@);
        assert(suffix_after_slash(t) =~= path@.subrange(s as int, e as int));
    }
    let len = e - s;
    if len == 0 {
        return None;
    }
    if len == 2 && path.get_char(s) == '.' && path.get_char(s + 1) == '.' {
        proof {
            reveal_strlit("..");
            assert(suffix_after_slash(t) =~= ".."@);
        }
        return None;
    }
    proof {
        reveal_strlit("..");
        let suf = path@.subrange(s as int, e as int);
        if suffix_after_slash(t) =~= ".."@ {
            assert(suf == ".."@);
            assert(suf.len() == 2);
            assert(suf[0] == path@[s as int] && suf[1] == path@[s as int + 1]);
            assert(len == 2 && path@[s as int] == '.' && path@[s as int + 1] == '.');
        }
    }
    Some(path.substring_char(s, e).to_owned())
}

/// The manifest that one level of fan-out produces: one entry per
/// immediate child, keyed by its name, holding the child's own full
/// (unfiltered) fingerprint.
pub open spec fn entries_manifest(es: Seq<FsEntry>, dir: Seq<char>) -> Seq<(Seq<char>, Seq<char>)> {
    Seq::new(
        es.len(),
        |i: int|
            (
                es[i].name@,
                fingerprint_of(es[i].node, child_path(dir, es[i].name@), accept_all_paths()),
            ),
    )
}

/// The manifest of a subtree: for a file, a single entry under the
/// path's base name (or the fallback name); for a directory, one entry
/// per immediate child.
pub open spec fn manifest_of(t: FsTree, path: Seq<char>) -> Seq<(Seq<char>, Seq<char>)> {
    match t {
        FsTree::File(_) => seq![
            (file_name_or_unknown(path), fingerprint_of(t, path, accept_all_paths())),
        ],
        FsTree::Dir(es) => entries_manifest(es@, path),
    }
}

// ---------------------------------------------------------------------------
// Building canonical directory levels
// ---------------------------------------------------------------------------

/// Inserting a child into a name-sorted entry list: before the first
/// larger name, replacing an equal name.
pub open spec fn entry_insert(es: Seq<FsEntry>, e: FsEntry) -> Seq<FsEntry>
    decreases es.len(),
{
    if es.len() == 0 {
        seq![e]
    } else if lex_lt(e.name@, es[0].name@) {
        seq![e] + es
    } else if e.name@ == es[0].name@ {
        seq![e] + es.drop_first()
    } else {
        seq![es[0]] + entry_insert(es.drop_first(), e)
    }
}

/// Inserting behind a strictly smaller prefix leaves the prefix in place.
proof fn lemma_entry_insert_at(es: Seq<FsEntry>, e: FsEntry, pos: int)
    requires
        0 <= pos <= es.len(),
        forall|j: int| 0 <= j < pos ==> lex_lt(#[trigger] es[j].name@, e.name@),
    ensures
        entry_insert(es, e) == es.take(pos) + entry_insert(es.skip(pos), e),
    decreases pos,
{
    if pos == 0 {
        assert(es.skip(0) =~= es);
        assert(es.take(0) + entry_insert(es, e) =~= entry_insert(es, e));
    } else {
        lemma_lex_lt_irreflexive(es[0].name@);
        lemma_lex_lt_trichotomy(e.name@, es[0].name@);
        let ed = es.drop_first();
        assert(forall|j: int| 0 <= j < pos - 1 ==> lex_lt(#[trigger] ed[j].name@, e.name@));
        lemma_entry_insert_at(ed, e, pos - 1);
        assert(ed.skip(pos - 1) =~= es.skip(pos));
        assert(ed.take(pos - 1) =~= es.take(pos).drop_first());
        assert(entry_insert(es, e) == seq![es[0]] + entry_insert(ed, e));
        assert(seq![es[0]] + (ed.take(pos - 1) + entry_insert(es.skip(pos), e)) =~= es.take(pos)
            + entry_insert(es.skip(pos), e));
    }
}

/// Every entry after an insertion is the new entry or one already there.
proof fn lemma_entry_insert_members(es: Seq<FsEntry>, e: FsEntry)
    ensures
        forall|i: int|
            0 <= i < entry_insert(es, e).len() ==> (#[trigger] entry_insert(es, e)[i] == e
                || exists|j: int| 0 <= j < es.len() && #[trigger] es[j] == entry_insert(es, e)[i]),
    decreases es.len(),
{
    let r = entry_insert(es, e);
    if es.len() == 0 {
    } else if lex_lt(e.name@, es[0].name@) {
        assert forall|i: int| 0 <= i < r.len() && r[i] != e implies exists|j: int|
            0 <= j < es.len() && #[trigger] es[j] == r[i] by {
            assert(es[i - 1] == r[i]);
        }
    } else if e.name@ == es[0].name@ {
        assert forall|i: int| 0 <= i < r.len() && r[i] != e implies exists|j: int|
            0 <= j < es.len() && #[trigger] es[j] == r[i] by {
            assert(es[i] == r[i]);
        }
    } else {
        lemma_entry_insert_members(es.drop_first(), e);
        assert forall|i: int| 0 <= i < r.len() && r[i] != e implies exists|j: int|
            0 <= j < es.len() && #[trigger] es[j] == r[i] by {
            if i == 0 {
                assert(es[0] == r[0]);
            } else {
                let rd = entry_insert(es.drop_first(), e);
                assert(r[i] == rd[i - 1]);
                let x = choose|x: int|
                    0 <= x < es.drop_first().len() && #[trigger] es.drop_first()[x] == rd[i - 1];
                assert(es[x + 1] == r[i]);
            }
        }
    }
}

/// Insertion keeps a level strictly name-sorted.
pub proof fn lemma_entry_insert_sorted(es: Seq<FsEntry>, e: FsEntry)
    requires
        entries_sorted(es),
    ensures
        entries_sorted(entry_insert(es, e)),
    decreases es.len(),
{
    let r = entry_insert(es, e);
    if es.len() == 0 {
    } else if lex_lt(e.name@, es[0].name@) {
        assert forall|i: int, j: int| 0 <= i < j < r.len() implies lex_lt(r[i].name@, r[j].name@) by {
            if i == 0 {
                if j > 1 {
                    lemma_lex_lt_transitive(e.name@, es[0].name@, es[j - 1].name@);
                }
            }
        }
    } else if e.name@ == es[0].name@ {
        assert forall|i: int, j: int| 0 <= i < j < r.len() implies lex_lt(r[i].name@, r[j].name@) by {
            assert(r[j] == es[j]);
            if i > 0 {
                assert(r[i] == es[i]);
            }
        }
    } else {
        lemma_lex_lt_trichotomy(e.name@, es[0].name@);
        let rd = entry_insert(es.drop_first(), e);
        assert(entries_sorted(es.drop_first())) by {
            assert(forall|p: int, q: int|
                0 <= p < q < es.drop_first().len() ==> (#[trigger] es.drop_first()[p]) == es[p + 1]
                    && (#[trigger] es.drop_first()[q]) == es[q + 1]);
        }
        lemma_entry_insert_sorted(es.drop_first(), e);
        lemma_entry_insert_members(es.drop_first(), e);
        assert forall|i: int, j: int| 0 <= i < j < r.len() implies lex_lt(r[i].name@, r[j].name@) by {
            if i == 0 {
                assert(r[j] == rd[j - 1]);
                if rd[j - 1] == e {
                    assert(lex_lt(es[0].name@, e.name@));
                } else {
                    let x = choose|x: int|
                        0 <= x < es.drop_first().len() && #[trigger] es.drop_first()[x] == rd[j
                            - 1];
                    assert(es[x + 1] == rd[j - 1]);
                }
            } else {
                assert(r[i] == rd[i - 1] && r[j] == rd[j - 1]);
            }
        }
    }
}

/// Insertion keeps every node of the level well-formed.
pub proof fn lemma_entry_insert_wf(es: Seq<FsEntry>, e: FsEntry)
    requires
        forall|i: int| 0 <= i < es.len() ==> (#[trigger] es[i].node).well_formed(),
        e.node.well_formed(),
    ensures
        forall|i: int|
            0 <= i < entry_insert(es, e).len() ==> (#[trigger] entry_insert(
                es,
                e,
            )[i].node).well_formed(),
{
    lemma_entry_insert_members(es, e);
    assert forall|i: int| 0 <= i < entry_insert(es, e).len() implies (#[trigger] entry_insert(
        es,
        e,
    )[i].node).well_formed() by {
        if entry_insert(es, e)[i] != e {
            let j = choose|j: int| 0 <= j < es.len() && #[trigger] es[j] == entry_insert(es, e)[i];
            assert(es[j].node.well_formed());
        }
    }
}

/// The position of the first entry whose name is not below `name`.
fn entry_lower_bound(entries: &Vec<FsEntry>, name: &str) -> (pos: usize)
    ensures
        pos <= entries@.len(),
        forall|j: int| 0 <= j < pos ==> lex_lt((#[trigger] entries@[j]).name@, name@),
        pos < entries@.len() ==> !lex_lt(entries@[pos as int].name@, name@),
{
    let mut i: usize = 0;
    loop
        invariant
            i <= entries@.len(),
            forall|j: int| 0 <= j < i ==> lex_lt((#[trigger] entries@[j]).name@, name@),
        decreases entries@.len() - i,
    {
        if i >= entries.len() {
            return i;
        }
        if !str_lex_lt(entries[i].name.as_str(), name) {
            return i;
        }
        i += 1;
    }
}

/// Adds or replaces the named child in a directory level, keeping the
/// level canonically name-sorted. Built this way, a level is the same
/// whatever order a filesystem enumerated the children in.
pub fn insert_entry(entries: &mut Vec<FsEntry>, entry: FsEntry)
    ensures
        final(entries)@ == entry_insert(old(entries)@, entry),
{
    let pos = entry_lower_bound(entries, entry.name.as_str());
    proof {
        lemma_entry_insert_at(entries@, entry, pos as int);
    }
    if pos < entries.len() && entries[pos].name == entry.name {
        let ghost m0 = entries@;
        entries.remove(pos);
        entries.insert(pos, entry);
        proof {
            assert(entries@ =~= m0.take(pos as int) + seq![entry] + m0.skip(pos as int + 1));
            assert(m0.skip(pos as int).drop_first() =~= m0.skip(pos as int + 1));
            assert(m0.take(pos as int) + (seq![entry] + m0.skip(pos as int + 1)) =~= m0.take(
                pos as int,
            ) + seq![entry] + m0.skip(pos as int + 1));
        }
    } else {
        let ghost m0 = entries@;
        entries.insert(pos, entry);
        proof {
            lemma_lex_lt_trichotomy(entry.name@, m0[pos as int].name@);
            assert(entries@ =~= m0.take(pos as int) + seq![entry] + m0.skip(pos as int));
            assert(m0.take(pos as int) + (seq![entry] + m0.skip(pos as int)) =~= m0.take(
                pos as int,
            ) + seq![entry] + m0.skip(pos as int));
        }
    }
}

// ---------------------------------------------------------------------------
// Laws of the engine
// ---------------------------------------------------------------------------

/// Determinism under enumeration order: one set of named entries has
/// exactly one strictly name-sorted arrangement, so however a filesystem
/// happened to enumerate a directory, the canonical level — and with it
/// every digest computed from it — is the same.
pub proof fn lemma_sorted_entries_unique(x: Seq<FsEntry>, y: Seq<FsEntry>)
    requires
        entries_sorted(x),
        entries_sorted(y),
        x.to_multiset() == y.to_multiset(),
    ensures
        x =~= y,
    decreases x.len(),
{
    broadcast use vstd::multiset::group_multiset_axioms;
    broadcast use vstd::seq_lib::group_to_multiset_ensures;

    if x.len() == 0 {
        assert(y.to_multiset().len() == 0);
        assert(x =~= y);
    } else if y.len() == 0 {
        assert(x.to_multiset().len() == 0);
    } else {
        assert(x.contains(x[0]));
        assert(x.to_multiset().contains(x[0]));
        assert(y.to_multiset().contains(x[0]));
        assert(y.contains(x[0]));
        assert(y.contains(y[0]));
        assert(x.to_multiset().contains(y[0]));
        assert(x.contains(y[0]));
        assert(exists|k: int| 0 <= k < y.len() && y[k] == x[0]);
        assert(exists|k: int| 0 <= k < x.len() && x[k] == y[0]);
        let j = choose|j: int| 0 <= j < y.len() && y[j] == x[0];
        let i = choose|i: int| 0 <= i < x.len() && x[i] == y[0];
        assert(0 <= j < y.len() && y[j] == x[0]);
        assert(0 <= i < x.len() && x[i] == y[0]);
        if i > 0 && j > 0 {
            assert(lex_lt(y[0].name@, y[j].name@));
            assert(lex_lt(x[0].name@, x[i].name@));
            lemma_lex_lt_trichotomy(x[0].name@, y[0].name@);
            assert(false);
        }
        assert(x[0] == y[0]);
        assert(x.drop_first() =~= x.remove(0));
        assert(y.drop_first() =~= y.remove(0));
        assert(x.remove(0).to_multiset() =~= x.to_multiset().remove(x[0]));
        assert(y.remove(0).to_multiset() =~= y.to_multiset().remove(y[0]));
        assert(x.drop_first().to_multiset() =~= x.to_multiset().remove(x[0]));
        assert(y.drop_first().to_multiset() =~= y.to_multiset().remove(y[0]));
        assert(entries_sorted(x.drop_first())) by {
            assert forall|p: int, q: int| 0 <= p < q < x.drop_first().len() implies lex_lt(
                x.drop_first()[p].name@,
                x.drop_first()[q].name@,
            ) by {
                assert(x.drop_first()[p] == x[p + 1] && x.drop_first()[q] == x[q + 1]);
            }
        }
        assert(entries_sorted(y.drop_first())) by {
            assert forall|p: int, q: int| 0 <= p < q < y.drop_first().len() implies lex_lt(
                y.drop_first()[p].name@,
                y.drop_first()[q].name@,
            ) by {
                assert(y.drop_first()[p] == y[p + 1] && y.drop_first()[q] == y[q + 1]);
            }
        }
        lemma_sorted_entries_unique(x.drop_first(), y.drop_first());
        assert forall|k: int| 0 <= k < x.len() implies x[k] == y[k] by {
            if k > 0 {
                assert(x[k] == x.drop_first()[k - 1] && y[k] == y.drop_first()[k - 1]);
            }
        }
    }
}

/// Determinism, stated on digests: two canonical arrangements of one
/// set of entries contribute identical hash input, so a directory
/// fingerprints the same however its children were enumerated.
pub proof fn lemma_walk_enumeration_independent(
    x: Seq<FsEntry>,
    y: Seq<FsEntry>,
    dir: Seq<char>,
    accept: spec_fn(Seq<char>) -> bool,
)
    requires
        entries_sorted(x),
        entries_sorted(y),
        x.to_multiset() == y.to_multiset(),
    ensures
        entries_walk_input(x, dir, accept) == entries_walk_input(y, dir, accept),
{
    lemma_sorted_entries_unique(x, y);
}

/// An empty directory fingerprints to the digest of the empty byte
/// sequence.
pub proof fn lemma_empty_dir_fingerprint(
    t: FsTree,
    path: Seq<char>,
    accept: spec_fn(Seq<char>) -> bool,
)
    requires
        t matches FsTree::Dir(es) && es@.len() == 0,
    ensures
        fingerprint_of(t, path, accept) == sha256_hex_of(Seq::<u8>::empty()),
{
    assert(walk_input(t, path, accept) == Seq::<char>::empty());
    assert(ascii_bytes(Seq::<char>::empty()) =~= Seq::<u8>::empty());
}

/// Under a predicate that rejects everything, a walk contributes nothing.
proof fn lemma_walk_reject_all(t: FsTree, path: Seq<char>, accept: spec_fn(Seq<char>) -> bool)
    requires
        forall|q: Seq<char>| !(#[trigger] accept(q)),
    ensures
        walk_input(t, path, accept) =~= Seq::<char>::empty(),
    decreases t,
{
    match t {
        FsTree::File(_) => {
        },
        FsTree::Dir(es) => {
            lemma_entries_walk_reject_all(es@, path, accept);
        },
    }
}

proof fn lemma_entries_walk_reject_all(
    es: Seq<FsEntry>,
    dir: Seq<char>,
    accept: spec_fn(Seq<char>) -> bool,
)
    requires
        forall|q: Seq<char>| !(#[trigger] accept(q)),
    ensures
        entries_walk_input(es, dir, accept) =~= Seq::<char>::empty(),
    decreases es,
{
    if es.len() > 0 {
        lemma_walk_reject_all(es[0].node, child_path(dir, es[0].name@), accept);
        lemma_entries_walk_reject_all(es.drop_first(), dir, accept);
    }
}

/// A directory whose predicate rejects every path fingerprints to the
/// digest of the empty byte sequence, exactly as an empty directory does.
pub proof fn lemma_reject_all_fingerprint(
    t: FsTree,
    path: Seq<char>,
    accept: spec_fn(Seq<char>) -> bool,
)
    requires
        t is Dir,
        forall|q: Seq<char>| !(#[trigger] accept(q)),
    ensures
        fingerprint_of(t, path, accept) == sha256_hex_of(Seq::<u8>::empty()),
{
    lemma_walk_reject_all(t, path, accept);
    assert(ascii_bytes(Seq::<char>::empty()) =~= Seq::<u8>::empty());
}

/// Filter exclusion: a rejected file contributes nothing, so the walk
/// input equals that of the same directory with the file left out.
pub proof fn lemma_rejected_file_excluded(
    es: Seq<FsEntry>,
    i: int,
    dir: Seq<char>,
    accept: spec_fn(Seq<char>) -> bool,
)
    requires
        0 <= i < es.len(),
        es[i].node is File,
        !accept(child_path(dir, es[i].name@)),
    ensures
        entries_walk_input(es, dir, accept) =~= entries_walk_input(es.remove(i), dir, accept),
    decreases es.len(),
{
    if i == 0 {
        assert(walk_input(es[0].node, child_path(dir, es[0].name@), accept) =~= Seq::<
            char,
        >::empty());
        assert(es.remove(0) =~= es.drop_first());
        assert(Seq::<char>::empty() + entries_walk_input(es.drop_first(), dir, accept)
            =~= entries_walk_input(es.drop_first(), dir, accept));
    } else {
        lemma_rejected_file_excluded(es.drop_first(), i - 1, dir, accept);
        assert(es.drop_first().remove(i - 1) =~= es.remove(i).drop_first());
        assert(es.remove(i)[0] == es[0]);
    }
}

/// Whether two predicates agree at every file path of the subtree.
pub open spec fn agree_on_files(
    t: FsTree,
    path: Seq<char>,
    p1: spec_fn(Seq<char>) -> bool,
    p2: spec_fn(Seq<char>) -> bool,
) -> bool
    decreases t,
{
    match t {
        FsTree::File(_) => p1(path) == p2(path),
        FsTree::Dir(es) => entries_agree_on_files(es@, path, p1, p2),
    }
}

pub open spec fn entries_agree_on_files(
    es: Seq<FsEntry>,
    dir: Seq<char>,
    p1: spec_fn(Seq<char>) -> bool,
    p2: spec_fn(Seq<char>) -> bool,
) -> bool
    decreases es,
{
    es.len() == 0 || (agree_on_files(es[0].node, child_path(dir, es[0].name@), p1, p2)
        && entries_agree_on_files(es.drop_first(), dir, p1, p2))
}

/// The directory-rejection quirk: the fingerprint consults the predicate
/// at file paths only, so rejecting a directory entry never prunes its
/// descendants — two predicates that agree on files give one digest.
pub proof fn lemma_directory_rejection_immaterial(
    t: FsTree,
    path: Seq<char>,
    p1: spec_fn(Seq<char>) -> bool,
    p2: spec_fn(Seq<char>) -> bool,
)
    requires
        agree_on_files(t, path, p1, p2),
    ensures
        walk_input(t, path, p1) == walk_input(t, path, p2),
        fingerprint_of(t, path, p1) == fingerprint_of(t, path, p2),
    decreases t,
{
    match t {
        FsTree::File(_) => {
        },
        FsTree::Dir(es) => {
            lemma_entries_rejection_immaterial(es@, path, p1, p2);
        },
    }
}

proof fn lemma_entries_rejection_immaterial(
    es: Seq<FsEntry>,
    dir: Seq<char>,
    p1: spec_fn(Seq<char>) -> bool,
    p2: spec_fn(Seq<char>) -> bool,
)
    requires
        entries_agree_on_files(es, dir, p1, p2),
    ensures
        entries_walk_input(es, dir, p1) == entries_walk_input(es, dir, p2),
    decreases es,
{
    if es.len() > 0 {
        lemma_directory_rejection_immaterial(es[0].node, child_path(dir, es[0].name@), p1, p2);
        lemma_entries_rejection_immaterial(es.drop_first(), dir, p1, p2);
    }
}

/// Composition: a directory holding exactly two accepted files digests
/// to the hash of the concatenation of the two file digests, first name
/// first.
pub proof fn lemma_two_file_composition(
    t: FsTree,
    path: Seq<char>,
    accept: spec_fn(Seq<char>) -> bool,
    ca: Seq<u8>,
    cb: Seq<u8>,
)
    requires
        t matches FsTree::Dir(es) && es@.len() == 2 && (es@[0].node matches FsTree::File(c0)
            && c0@ == ca) && (es@[1].node matches FsTree::File(c1) && c1@ == cb) && accept(
            child_path(path, es@[0].name@),
        ) && accept(child_path(path, es@[1].name@)),
    ensures
        fingerprint_of(t, path, accept) == sha256_hex_of(
            ascii_bytes(sha256_hex_of(ca) + sha256_hex_of(cb)),
        ),
{
    let es = (t->Dir_0)@;
    let a = sha256_hex_of(ca);
    let b = sha256_hex_of(cb);
    assert(es.drop_first().drop_first() =~= Seq::<FsEntry>::empty());
    assert(es.drop_first()[0] == es[1]);
    assert(walk_input(es[0].node, child_path(path, es[0].name@), accept) == a);
    assert(walk_input(es[1].node, child_path(path, es[1].name@), accept) == b);
    assert(entries_walk_input(es.drop_first().drop_first(), path, accept) == Seq::<char>::empty());
    assert(entries_walk_input(es.drop_first(), path, accept) == b + Seq::<char>::empty());
    assert(entries_walk_input(es, path, accept) == a + (b + Seq::<char>::empty()));
    assert(walk_input(t, path, accept) == a + (b + Seq::<char>::empty()));
    assert(a + (b + Seq::<char>::empty()) =~= a + b);
}

} // verus!
