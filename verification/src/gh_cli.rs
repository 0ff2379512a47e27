//! Release modes for the hosted-release workflow. The calls that list
//! and create releases are the caller's; the mode policy is here.

use vstd::prelude::*;

verus! {

/// The position of the last occurrence of `c`, if any.
pub open spec fn find_last_char(s: Seq<char>, c: char) -> Option<int>
    decreases s.len(),
{
    if s.len() == 0 {
        None
    } else if s.last() == c {
        Some(s.len() - 1)
    } else {
        find_last_char(s.drop_last(), c)
    }
}

/// The name and version halves of a release tag: the text before and
/// after its last dash; nothing where the tag has no dash.
pub open spec fn split_tag(s: Seq<char>) -> Option<(Seq<char>, Seq<char>)> {
    match find_last_char(s, '-') {
        Option::None => None,
        Option::Some(i) => Some((s.take(i), s.skip(i + 1))),
    }
}

/// A found position lies inside the sequence, at an occurrence of `c`.
proof fn lemma_find_last_char_bounds(s: Seq<char>, c: char)
    ensures
        find_last_char(s, c) matches Some(i) ==> 0 <= i < s.len() && s[i] == c,
    decreases s.len(),
{
    if s.len() > 0 && s.last() != c {
        lemma_find_last_char_bounds(s.drop_last(), c);
    }
}

/// Splits a release tag on its last dash into a name and a version.
pub fn split_release_tag(tag: &str) -> (r: Option<(String, String)>)
    ensures
        r is Some <==> split_tag(tag@) is Some,
        r matches Some(p) ==> Some((p.0@, p.1@)) == split_tag(tag@),
{
    let n = tag.unicode_len();
    let mut e: usize = n;
    proof {
        assert(tag@.take(n as int) =~= tag@);
    }
    #[verifier::loop_isolation(false)]
    loop
        invariant
            e <= n,
            find_last_char(tag@, '-') == find_last_char(tag@.take(e as int), '-'),
        decreases e,
    {
        if e == 0 {
            proof {
                assert(tag@.take(0) =~= Seq::<char>::empty());
            }
            return None;
        }
        proof {
            assert(tag@.take(e as int).last() == tag@[e as int - 1]);
            assert(tag@.take(e as int).drop_last() =~= tag@.take(e as int - 1));
        }
        if tag.get_char(e - 1) == '-' {
            let name = tag.substring_char(0, e - 1).to_owned();
            let version = tag.substring_char(e, n).to_owned();
            proof {
                lemma_find_last_char_bounds(tag@, '-');
                assert(name@ =~= tag@.take(e as int - 1));
                assert(version@ =~= tag@.skip(e as int));
            }
            return Some((name, version));
        }
        e -= 1;
    }
}

/// How a release is published.
pub enum ReleaseMode {
    Normal,
    Draft,
    Prerelease,
}

impl Default for ReleaseMode {
    /// An ordinary release.
    fn default() -> (r: Self)
        ensures
            r is Normal,
    {
        ReleaseMode::Normal
    }
}

impl ReleaseMode {
    /// Whether the mode marks the release as a draft.
    pub fn is_draft(&self) -> (r: bool)
        ensures
            r == (self is Draft),
    {
        match self {
            ReleaseMode::Draft => true,
            _ => false,
        }
    }

    /// Whether the mode marks the release as a prerelease.
    pub fn is_prerelease(&self) -> (r: bool)
        ensures
            r == (self is Prerelease),
    {
        match self {
            ReleaseMode::Prerelease => true,
            _ => false,
        }
    }
}

} // verus!
