//! Versions of the Ethereum virtual machine.

use crate::order::same_text;
use crate::version;
use crate::version::{
    Version, BERLIN_SOLC, CONSTANTINOPLE_SOLC, ISTANBUL_SOLC, LONDON_SOLC, PETERSBURG_SOLC,
};
use std::cmp::Ordering;
use vstd::prelude::*;

verus! {

/// A fork of the Ethereum virtual machine, from the oldest to the newest.
#[derive(Copy, Clone, Debug, PartialEq, Eq, Ord, Structural)]
pub enum EvmVersion {
    Homestead,
    TangerineWhistle,
    SpuriousDragon,
    Byzantium,
    Constantinople,
    Petersburg,
    Istanbul,
    Berlin,
    London,
}

impl EvmVersion {
    /// How many forks came before this one.
    pub open spec fn generation(self) -> int {
        match self {
            EvmVersion::Homestead => 0,
            EvmVersion::TangerineWhistle => 1,
            EvmVersion::SpuriousDragon => 2,
            EvmVersion::Byzantium => 3,
            EvmVersion::Constantinople => 4,
            EvmVersion::Petersburg => 5,
            EvmVersion::Istanbul => 6,
            EvmVersion::Berlin => 7,
            EvmVersion::London => 8,
        }
    }

    /// The name of the fork in the compiler's settings.
    pub open spec fn name(self) -> Seq<char> {
        match self {
            EvmVersion::Homestead => "homestead"@,
            EvmVersion::TangerineWhistle => "tangerineWhistle"@,
            EvmVersion::SpuriousDragon => "spuriousDragon"@,
            EvmVersion::Byzantium => "byzantium"@,
            EvmVersion::Constantinople => "constantinople"@,
            EvmVersion::Petersburg => "petersburg"@,
            EvmVersion::Istanbul => "istanbul"@,
            EvmVersion::Berlin => "berlin"@,
            EvmVersion::London => "london"@,
        }
    }

    /// The fork of that name, if there is one.
    pub open spec fn named(name: Seq<char>) -> Option<EvmVersion> {
        if exists|v: EvmVersion| #[trigger] v.name() == name {
            Some(choose|v: EvmVersion| #[trigger] v.name() == name)
        } else {
            None
        }
    }

    /// The older of two forks.
    pub open spec fn older(self, other: EvmVersion) -> EvmVersion {
        if self.generation() <= other.generation() {
            self
        } else {
            other
        }
    }

    /// The newest fork that a compiler knows. Compilers from before forks could be chosen know
    /// none.
    pub open spec fn newest_of(compiler: version::VersionModel) -> Option<EvmVersion> {
        if compiler.at_least(LONDON_SOLC) {
            Some(EvmVersion::London)
        } else if compiler.at_least(BERLIN_SOLC) {
            Some(EvmVersion::Berlin)
        } else if compiler.at_least(ISTANBUL_SOLC) {
            Some(EvmVersion::Istanbul)
        } else if compiler.at_least(PETERSBURG_SOLC) {
            Some(EvmVersion::Petersburg)
        } else if compiler.at_least(CONSTANTINOPLE_SOLC) {
            Some(EvmVersion::Constantinople)
        } else {
            None
        }
    }

    /// The fork capped at the newest one that the compiler knows.
    pub open spec fn normalized(self, compiler: version::VersionModel) -> Option<EvmVersion> {
        match EvmVersion::newest_of(compiler) {
            Some(newest) => Some(self.older(newest)),
            None => None,
        }
    }

    /// Checks against the given version of the compiler: caps the fork at the newest one that it
    /// knows. There is none where the compiler takes no EVM version.
    pub fn normalize_version(self, version: &Version) -> (normalized: Option<EvmVersion>)
        ensures
            normalized == self.normalized(version@),
    {
        // the EVM version flag came with this release, so we work our way backwards
        if version.at_least(CONSTANTINOPLE_SOLC) {
            // if the compiler is at least at london, it supports all EVM versions
            Some(
                if version.at_least(LONDON_SOLC) {
                    self
                    // for all other cases, cap at the at-the-time highest possible fork
                } else if version.at_least(BERLIN_SOLC) && self >= EvmVersion::Berlin {
                    EvmVersion::Berlin
                } else if version.at_least(ISTANBUL_SOLC) && self >= EvmVersion::Istanbul {
                    EvmVersion::Istanbul
                } else if version.at_least(PETERSBURG_SOLC) && self >= EvmVersion::Petersburg {
                    EvmVersion::Petersburg
                } else if self >= EvmVersion::Constantinople {
                    EvmVersion::Constantinople
                } else {
                    self
                },
            )
        } else {
            None
        }
    }
}

impl PartialOrd for EvmVersion {
    fn partial_cmp(&self, other: &Self) -> (order: Option<Ordering>) {
        let (a, b) = (self.position(), other.position());
        if a < b {
            Some(Ordering::Less)
        } else if a == b {
            Some(Ordering::Equal)
        } else {
            Some(Ordering::Greater)
        }
    }
}

impl vstd::std_specs::cmp::PartialOrdSpecImpl for EvmVersion {
    open spec fn obeys_partial_cmp_spec() -> bool {
        true
    }

    open spec fn partial_cmp_spec(&self, other: &Self) -> Option<Ordering> {
        if self.generation() < other.generation() {
            Some(Ordering::Less)
        } else if self.generation() == other.generation() {
            Some(Ordering::Equal)
        } else {
            Some(Ordering::Greater)
        }
    }
}

impl EvmVersion {
    /// How many forks came before this one.
    fn position(&self) -> (n: u8)
        ensures
            n == self.generation(),
    {
        match self {
            EvmVersion::Homestead => 0,
            EvmVersion::TangerineWhistle => 1,
            EvmVersion::SpuriousDragon => 2,
            EvmVersion::Byzantium => 3,
            EvmVersion::Constantinople => 4,
            EvmVersion::Petersburg => 5,
            EvmVersion::Istanbul => 6,
            EvmVersion::Berlin => 7,
            EvmVersion::London => 8,
        }
    }
}

impl Default for EvmVersion {
    fn default() -> (version: Self)
        ensures
            version == EvmVersion::London,
    {
        EvmVersion::London
    }
}

impl EvmVersion {
    /// The name of the fork.
    pub fn to_string(&self) -> (name: String)
        ensures
            name@ == self.name(),
    {
        let name = match self {
            EvmVersion::Homestead => "homestead",
            EvmVersion::TangerineWhistle => "tangerineWhistle",
            EvmVersion::SpuriousDragon => "spuriousDragon",
            EvmVersion::Constantinople => "constantinople",
            EvmVersion::Petersburg => "petersburg",
            EvmVersion::Istanbul => "istanbul",
            EvmVersion::Berlin => "berlin",
            EvmVersion::London => "london",
            EvmVersion::Byzantium => "byzantium",
        };
        name.to_owned()
    }
}

impl std::str::FromStr for EvmVersion {
    type Err = String;

    fn from_str(s: &str) -> (result: Result<Self, Self::Err>)
        ensures
            match result {
                Ok(version) => EvmVersion::named(s@) == Some(version),
                Err(message) => EvmVersion::named(s@) is None && message@
                    == "Unknown evm version: "@ + s@,
            },
    {
        let result = if same_text(s, "homestead") {
            EvmVersion::Homestead
        } else if same_text(s, "tangerineWhistle") {
            EvmVersion::TangerineWhistle
        } else if same_text(s, "spuriousDragon") {
            EvmVersion::SpuriousDragon
        } else if same_text(s, "constantinople") {
            EvmVersion::Constantinople
        } else if same_text(s, "petersburg") {
            EvmVersion::Petersburg
        } else if same_text(s, "istanbul") {
            EvmVersion::Istanbul
        } else if same_text(s, "berlin") {
            EvmVersion::Berlin
        } else if same_text(s, "london") {
            EvmVersion::London
        } else if same_text(s, "byzantium") {
            EvmVersion::Byzantium
        } else {
            return Err("Unknown evm version: ".to_owned().concat(s));
        };
        proof {
            lemma_named(result);
        }
        Ok(result)
    }
}

/// A fork is what its name names.
pub proof fn lemma_named(v: EvmVersion)
    ensures
        EvmVersion::named(v.name()) == Some(v),
{
    reveal_strlit("homestead");
    reveal_strlit("tangerineWhistle");
    reveal_strlit("spuriousDragon");
    reveal_strlit("constantinople");
    reveal_strlit("petersburg");
    reveal_strlit("istanbul");
    reveal_strlit("berlin");
    reveal_strlit("london");
    reveal_strlit("byzantium");
    let w = choose|w: EvmVersion| #[trigger] w.name() == v.name();
    assert(w.name()[0] == v.name()[0]);
    assert(w.name().len() == v.name().len());
}

/// What a name names has that name.
pub proof fn lemma_named_has_name(name: Seq<char>, v: EvmVersion)
    requires
        EvmVersion::named(name) == Some(v),
    ensures
        v.name() == name,
{
}

/// A normalized fork is no newer than the one asked for and than the newest that the compiler
/// knows, and it is one of these two.
pub proof fn lemma_normalized_is_capped(v: EvmVersion, compiler: version::VersionModel)
    ensures
        match (v.normalized(compiler), EvmVersion::newest_of(compiler)) {
            (Some(normalized), Some(newest)) => {
                &&& normalized.generation() <= v.generation()
                &&& normalized.generation() <= newest.generation()
                &&& normalized == v || normalized == newest
            },
            (None, None) => !compiler.at_least(CONSTANTINOPLE_SOLC),
            _ => false,
        },
{
}

/// Normalizing for the same compiler again changes nothing.
pub proof fn lemma_normalized_twice(v: EvmVersion, compiler: version::VersionModel)
    ensures
        v.normalized(compiler) matches Some(once) ==> once.normalized(compiler) == Some(once),
{
}

/// A compiler from London on supports all forks.
pub proof fn lemma_london_supports_all(v: EvmVersion, compiler: version::VersionModel)
    requires
        compiler.at_least(LONDON_SOLC),
    ensures
        v.normalized(compiler) == Some(v),
{
}

/// Of two forks the newer one normalizes to no older one, and so does one fork for a compiler
/// that is at least every release that another one is.
pub proof fn lemma_normalized_monotone(
    v: EvmVersion,
    w: EvmVersion,
    earlier: version::VersionModel,
    later: version::VersionModel,
)
    requires
        v.generation() <= w.generation(),
        forall|release: (u64, u64, u64)| #[trigger]
            earlier.at_least(release) ==> later.at_least(release),
    ensures
        v.normalized(earlier) matches Some(a) ==> {
            &&& w.normalized(later) matches Some(b)
            &&& a.generation() <= b.generation()
        },
{
    assert(earlier.at_least(LONDON_SOLC) ==> later.at_least(LONDON_SOLC));
    assert(earlier.at_least(BERLIN_SOLC) ==> later.at_least(BERLIN_SOLC));
    assert(earlier.at_least(ISTANBUL_SOLC) ==> later.at_least(ISTANBUL_SOLC));
    assert(earlier.at_least(PETERSBURG_SOLC) ==> later.at_least(PETERSBURG_SOLC));
    assert(earlier.at_least(CONSTANTINOPLE_SOLC) ==> later.at_least(CONSTANTINOPLE_SOLC));
}

/// The forks in their order, which is also what `<` goes by.
pub proof fn lemma_forks_in_order(v: EvmVersion, w: EvmVersion)
    ensures
        EvmVersion::Homestead.generation() < EvmVersion::TangerineWhistle.generation()
            < EvmVersion::SpuriousDragon.generation() < EvmVersion::Byzantium.generation()
            < EvmVersion::Constantinople.generation() < EvmVersion::Petersburg.generation()
            < EvmVersion::Istanbul.generation() < EvmVersion::Berlin.generation()
            < EvmVersion::London.generation(),
        vstd::std_specs::cmp::PartialOrdSpec::partial_cmp_spec(&v, &w) == Some(Ordering::Less)
            <==> v.generation() < w.generation(),
        vstd::std_specs::cmp::PartialOrdSpec::partial_cmp_spec(&v, &w) == Some(Ordering::Equal)
            <==> v == w,
{
}

/// The newest fork that a compiler knows changes at five releases and nowhere else.
pub proof fn lemma_newest_by_release(compiler: version::VersionModel)
    ensures
        EvmVersion::newest_of(compiler) is None <==> !compiler.at_least((0, 4, 21)),
        EvmVersion::newest_of(compiler) == Some(EvmVersion::Constantinople) <==> compiler.at_least(
            (0, 4, 21),
        ) && !compiler.at_least((0, 5, 5)),
        EvmVersion::newest_of(compiler) == Some(EvmVersion::Petersburg) <==> compiler.at_least(
            (0, 5, 5),
        ) && !compiler.at_least((0, 5, 14)),
        EvmVersion::newest_of(compiler) == Some(EvmVersion::Istanbul) <==> compiler.at_least(
            (0, 5, 14),
        ) && !compiler.at_least((0, 8, 5)),
        EvmVersion::newest_of(compiler) == Some(EvmVersion::Berlin) <==> compiler.at_least(
            (0, 8, 5),
        ) && !compiler.at_least((0, 8, 7)),
        EvmVersion::newest_of(compiler) == Some(EvmVersion::London) <==> compiler.at_least(
            (0, 8, 7),
        ),
{
}

/// A fork is normalized to itself from the release on that came with it, and by older compilers to
/// the fork that the latest of those releases came with. Compilers before the first such release
/// take no fork, and the forks before Constantinople came with none.
pub proof fn lemma_normalized_by_release(v: EvmVersion, compiler: version::VersionModel)
    ensures
        !compiler.at_least((0, 4, 21)) ==> v.normalized(compiler) is None,
        compiler.at_least((0, 4, 21)) ==> {
            &&& v.normalized(compiler) is Some
            &&& v is Homestead || v is TangerineWhistle || v is SpuriousDragon || v is Byzantium
                || v is Constantinople ==> v.normalized(compiler) == Some(v)
            &&& v is London && compiler.at_least((0, 8, 7)) ==> v.normalized(compiler) == Some(v)
            &&& v is Berlin && compiler.at_least((0, 8, 5)) ==> v.normalized(compiler) == Some(v)
            &&& v is Istanbul && compiler.at_least((0, 5, 14)) ==> v.normalized(compiler) == Some(v)
            &&& v is Petersburg && compiler.at_least((0, 5, 5)) ==> v.normalized(compiler)
                == Some(v)
            &&& v is London && !compiler.at_least((0, 8, 7)) && compiler.at_least((0, 8, 5))
                ==> v.normalized(compiler) == Some(EvmVersion::Berlin)
            &&& (v is London || v is Berlin) && !compiler.at_least((0, 8, 5)) && compiler.at_least(
                (0, 5, 14),
            ) ==> v.normalized(compiler) == Some(EvmVersion::Istanbul)
            &&& (v is London || v is Berlin || v is Istanbul) && !compiler.at_least((0, 5, 14))
                && compiler.at_least((0, 5, 5)) ==> v.normalized(compiler) == Some(
                EvmVersion::Petersburg,
            )
            &&& (v is London || v is Berlin || v is Istanbul || v is Petersburg)
                && !compiler.at_least((0, 5, 5)) ==> v.normalized(compiler) == Some(
                EvmVersion::Constantinople,
            )
        },
{
}

} // verus!
