//! Versions of the compiler.

use crate::text;
use vstd::prelude::*;

verus! {

/// First release that takes an EVM version at all.
pub const CONSTANTINOPLE_SOLC: (u64, u64, u64) = (0, 4, 21);

/// First release that knows Petersburg.
pub const PETERSBURG_SOLC: (u64, u64, u64) = (0, 5, 5);

/// First release that knows Istanbul.
pub const ISTANBUL_SOLC: (u64, u64, u64) = (0, 5, 14);

/// First release that knows Berlin.
pub const BERLIN_SOLC: (u64, u64, u64) = (0, 8, 5);

/// First release that knows London.
pub const LONDON_SOLC: (u64, u64, u64) = (0, 8, 7);

/// Whether a character may stand in a pre-release identifier.
pub open spec fn is_identifier_char(c: char) -> bool {
    ||| 'a' <= c <= 'z'
    ||| 'A' <= c <= 'Z'
    ||| '0' <= c <= '9'
    ||| c == '-'
}

/// Whether a text is one pre-release identifier: a number without leading zeros, or a word.
pub open spec fn is_identifier(s: Seq<char>) -> bool {
    &&& s.len() > 0
    &&& forall|i: int| 0 <= i < s.len() ==> is_identifier_char(#[trigger] s[i])
    &&& (forall|i: int| 0 <= i < s.len() ==> '0' <= #[trigger] s[i] <= '9') ==> s.len() == 1 || s[0]
        != '0'
}

/// Whether a text can be the pre-release part of a version: nothing, or identifiers with dots
/// between them.
pub open spec fn is_prerelease(s: Seq<char>) -> bool {
    s.len() == 0 || forall|i: int|
        0 <= i < text::pieces(s, '.').len() ==> is_identifier(#[trigger] text::pieces(s, '.')[i])
}

/// Asks `semver::Prerelease::new` whether it takes a text: it takes the empty text and dot
/// separated identifiers of letters, digits and hyphens, without leading zeros in numbers.
#[verifier::external_body]
fn semver_takes_prerelease(pre: &str) -> (ok: bool)
    ensures
        ok == is_prerelease(pre@),
{
    semver::Prerelease::new(pre).is_ok()
}

/// What a version says.
pub struct VersionModel {
    pub major: u64,
    pub minor: u64,
    pub patch: u64,
    pub pre: Seq<char>,
}

impl VersionModel {
    /// Whether the version is the given release or a later one. The pre-releases of a release
    /// come before it.
    pub open spec fn at_least(self, release: (u64, u64, u64)) -> bool {
        if self.major != release.0 {
            self.major > release.0
        } else if self.minor != release.1 {
            self.minor > release.1
        } else if self.patch != release.2 {
            self.patch > release.2
        } else {
            self.pre.len() == 0
        }
    }
}

/// A version of the compiler. Build metadata is left out: it never makes a version older than a
/// release.
#[derive(Debug, PartialEq, Eq)]
pub struct Version {
    major: u64,
    minor: u64,
    patch: u64,
    pre: String,
}

impl View for Version {
    type V = VersionModel;

    closed spec fn view(&self) -> VersionModel {
        VersionModel { major: self.major, minor: self.minor, patch: self.patch, pre: self.pre@ }
    }
}

/// Compares with the `>=` of `semver::Version`, which goes by major, minor and patch number in
/// this order and puts a version with a pre-release part before the one without. The release has
/// neither pre-release nor build part.
#[verifier::external_body]
fn semver_at_least(version: &Version, release: (u64, u64, u64)) -> (b: bool)
    requires
        is_prerelease(version@.pre),
    ensures
        b == version@.at_least(release),
{
    let version = semver::Version {
        major: version.major,
        minor: version.minor,
        patch: version.patch,
        pre: semver::Prerelease::new(&version.pre).unwrap(),
        build: semver::BuildMetadata::EMPTY,
    };
    version >= semver::Version::new(release.0, release.1, release.2)
}

impl Version {
    /// Every version's pre-release part is one.
    #[verifier::type_invariant]
    pub open spec fn well_formed(self) -> bool {
        is_prerelease(self@.pre)
    }

    /// Makes the version of a release.
    pub fn new(major: u64, minor: u64, patch: u64) -> (version: Self)
        ensures
            version@ == (VersionModel { major, minor, patch, pre: Seq::empty() }),
    {
        Version { major, minor, patch, pre: String::new() }
    }

    /// Makes a version with a pre-release part, if that is one.
    pub fn with_prerelease(major: u64, minor: u64, patch: u64, pre: &str) -> (version: Option<Self>)
        ensures
            match version {
                Some(v) => is_prerelease(pre@) && v@ == (VersionModel {
                    major,
                    minor,
                    patch,
                    pre: pre@,
                }),
                None => !is_prerelease(pre@),
            },
    {
        if semver_takes_prerelease(pre) {
            Some(Version { major, minor, patch, pre: pre.to_owned() })
        } else {
            None
        }
    }

    /// Whether the version is the given release or a later one.
    pub fn at_least(&self, release: (u64, u64, u64)) -> (b: bool)
        ensures
            b == self@.at_least(release),
    {
        proof {
            use_type_invariant(self);
        }
        semver_at_least(self, release)
    }
}

impl Clone for Version {
    fn clone(&self) -> (copy: Self)
        ensures
            copy == *self,
    {
        proof {
            use_type_invariant(self);
        }
        Version { major: self.major, minor: self.minor, patch: self.patch, pre: self.pre.clone() }
    }
}

/// A version is at least a release just if its numbers come after those of the release, the first
/// that differs deciding, or if they are the same and it is no pre-release.
pub proof fn lemma_at_least(version: VersionModel, release: (u64, u64, u64))
    ensures
        version.at_least(release) <==> {
            ||| version.major > release.0
            ||| version.major == release.0 && version.minor > release.1
            ||| version.major == release.0 && version.minor == release.1 && version.patch
                > release.2
            ||| version.major == release.0 && version.minor == release.1 && version.patch
                == release.2 && version.pre.len() == 0
        },
{
}

/// A version that is at least a release is at least every release that this one is at least, and a
/// pre-release is at least just the releases before its own.
pub proof fn lemma_at_least_earlier(
    version: VersionModel,
    release: (u64, u64, u64),
    earlier: (u64, u64, u64),
)
    ensures
        version.at_least(release) && (VersionModel {
            major: release.0,
            minor: release.1,
            patch: release.2,
            pre: Seq::empty(),
        }).at_least(earlier) ==> version.at_least(earlier),
        (VersionModel { pre: Seq::empty(), ..version }).at_least(release) && version.pre.len() > 0
            ==> (version.at_least(release) <==> (version.major, version.minor, version.patch)
            != release),
{
}

/// A text without dots can be the pre-release part of a version just if it is empty, or made of
/// letters, digits and hyphens and no number with a leading zero.
pub proof fn lemma_prerelease_word(word: Seq<char>)
    requires
        !word.contains('.'),
    ensures
        is_prerelease(word) <==> word.len() == 0 || {
            &&& forall|i: int|
                0 <= i < word.len() ==> ('a' <= #[trigger] word[i] <= 'z' || 'A' <= word[i] <= 'Z'
                    || '0' <= word[i] <= '9' || word[i] == '-')
            &&& word.len() > 1 && word[0] == '0' ==> exists|i: int|
                0 <= i < word.len() && !('0' <= #[trigger] word[i] <= '9')
        },
{
    text::lemma_one_piece(word, '.');
    assert(text::pieces(word, '.').len() == 1);
    assert(text::pieces(word, '.')[0] == word);
    if is_prerelease(word) && word.len() > 0 {
        assert(is_identifier(text::pieces(word, '.')[0]));
        assert forall|i: int| 0 <= i < word.len() implies ('a' <= #[trigger] word[i] <= 'z' || 'A'
            <= word[i] <= 'Z' || '0' <= word[i] <= '9' || word[i] == '-') by {
            assert(is_identifier_char(word[i]));
        }
    }
}

/// Two parts with a dot between them can be the pre-release part of a version just if each of them
/// can, neither being empty.
pub proof fn lemma_prerelease_parts(a: Seq<char>, b: Seq<char>)
    requires
        a.len() > 0,
        b.len() > 0,
    ensures
        is_prerelease(a.push('.') + b) <==> is_prerelease(a) && is_prerelease(b),
{
    let whole = a.push('.') + b;
    let (p, q) = (text::pieces(a, '.'), text::pieces(b, '.'));
    text::lemma_pieces_join(a, b, '.');
    if is_prerelease(whole) {
        assert forall|i: int| 0 <= i < p.len() implies is_identifier(#[trigger] p[i]) by {
            assert(text::pieces(whole, '.')[i] == p[i]);
        }
        assert forall|i: int| 0 <= i < q.len() implies is_identifier(#[trigger] q[i]) by {
            assert(text::pieces(whole, '.')[p.len() + i] == q[i]);
        }
    }
}

} // verus!
