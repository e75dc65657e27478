use vstd::prelude::*;

use crate::bump::VersionBump;

verus! {

/// A semantic version: three counters, then the pre-release and build
/// labels (empty when absent).
#[derive(Debug, PartialEq, Eq)]
pub struct Version {
    pub major: u64,
    pub minor: u64,
    pub patch: u64,
    pub pre: String,
    pub build: String,
}

impl View for Version {
    type V = (u64, u64, u64, Seq<char>, Seq<char>);

    open spec fn view(&self) -> Self::V {
        (self.major, self.minor, self.patch, self.pre@, self.build@)
    }
}

/// What semver's parser makes of a text: the counters and labels of the
/// version it reads, or `None` when the text is no semantic version.
pub uninterp spec fn semver_version(text: Seq<char>) -> Option<(u64, u64, u64, Seq<char>, Seq<char>)>;

/// Relies on `semver::Version::parse`: it reads a version, or refuses the text;
/// the labels are handed over as the crate prints them. The parser admits no
/// leading zeros in the counters and no empty labels, so the text it accepts
/// is the text the version prints as.
#[verifier::external_body]
fn parse_semver(text: &str) -> (r: Option<Version>)
    ensures
        r matches Some(v) ==> semver_version(text@) == Some(v@) && version_text(v@) == text@,
        r is None ==> semver_version(text@) is None,
{
    semver::Version::parse(text).ok().map(
        |v| Version {
            major: v.major,
            minor: v.minor,
            patch: v.patch,
            pre: v.pre.as_str().to_string(),
            build: v.build.as_str().to_string(),
        },
    )
}

/// The version that `bump` makes of `v`, or `None` where the counter to
/// raise is already at its largest value. The labels are cleared.
pub open spec fn bumped(
    v: (u64, u64, u64, Seq<char>, Seq<char>),
    bump: VersionBump,
) -> Option<(u64, u64, u64, Seq<char>, Seq<char>)> {
    let empty = Seq::<char>::empty();
    match bump {
        VersionBump::Major => if v.0 < u64::MAX {
            Some(((v.0 + 1) as u64, 0u64, 0u64, empty, empty))
        } else {
            None
        },
        VersionBump::Minor => if v.1 < u64::MAX {
            Some((v.0, (v.1 + 1) as u64, 0u64, empty, empty))
        } else {
            None
        },
        VersionBump::Patch => if v.2 < u64::MAX {
            Some((v.0, v.1, (v.2 + 1) as u64, empty, empty))
        } else {
            None
        },
    }
}

pub open spec fn digit(d: nat) -> char {
    if d == 0 {
        '0'
    } else if d == 1 {
        '1'
    } else if d == 2 {
        '2'
    } else if d == 3 {
        '3'
    } else if d == 4 {
        '4'
    } else if d == 5 {
        '5'
    } else if d == 6 {
        '6'
    } else if d == 7 {
        '7'
    } else if d == 8 {
        '8'
    } else {
        '9'
    }
}

/// The decimal digits of `n`, without leading zeros.
pub open spec fn decimal(n: nat) -> Seq<char>
    decreases n,
{
    if n < 10 {
        seq![digit(n)]
    } else {
        decimal(n / 10).push(digit(n % 10))
    }
}

/// The text of a version: `major.minor.patch`, then `-pre` and `+build`
/// where those labels are present.
pub open spec fn version_text(v: (u64, u64, u64, Seq<char>, Seq<char>)) -> Seq<char> {
    let core = decimal(v.0 as nat) + seq!['.'] + decimal(v.1 as nat) + seq!['.'] + decimal(
        v.2 as nat,
    );
    let with_pre = if v.3.len() > 0 {
        core + seq!['-'] + v.3
    } else {
        core
    };
    if v.4.len() > 0 {
        with_pre + seq!['+'] + v.4
    } else {
        with_pre
    }
}

fn digit_str(d: u64) -> (r: &'static str)
    requires
        d < 10,
    ensures
        r@ == seq![digit(d as nat)],
{
    proof {
        reveal_strlit("0");
        reveal_strlit("1");
        reveal_strlit("2");
        reveal_strlit("3");
        reveal_strlit("4");
        reveal_strlit("5");
        reveal_strlit("6");
        reveal_strlit("7");
        reveal_strlit("8");
        reveal_strlit("9");
    }
    if d == 0 {
        "0"
    } else if d == 1 {
        "1"
    } else if d == 2 {
        "2"
    } else if d == 3 {
        "3"
    } else if d == 4 {
        "4"
    } else if d == 5 {
        "5"
    } else if d == 6 {
        "6"
    } else if d == 7 {
        "7"
    } else if d == 8 {
        "8"
    } else {
        "9"
    }
}

fn push_decimal(out: &mut String, n: u64)
    ensures
        final(out)@ == old(out)@ + decimal(n as nat),
    decreases n,
{
    if n >= 10 {
        push_decimal(out, n / 10);
    }
    out.append(digit_str(n % 10));
    proof {
        if n >= 10 {
            assert(old(out)@ + decimal(n as nat) =~= old(out)@ + decimal((n / 10) as nat) + seq![
                digit((n % 10) as nat),
            ]);
        }
    }
}

impl Version {
    pub fn new(major: u64, minor: u64, patch: u64) -> (r: Version)
        ensures
            r@ == (major, minor, patch, Seq::<char>::empty(), Seq::<char>::empty()),
    {
        Version { major, minor, patch, pre: String::new(), build: String::new() }
    }

    /// Reads a semantic version such as `1.2.3` or `1.0.0-beta.1+7`.
    pub fn parse(text: &str) -> (r: Option<Version>)
        ensures
            r matches Some(v) ==> semver_version(text@) == Some(v@) && version_text(v@) == text@,
            r is None ==> semver_version(text@) is None,
    {
        parse_semver(text)
    }

    /// The version after `bump`: a major bump raises the major counter and
    /// zeroes the others, a minor bump raises the minor counter and zeroes the
    /// patch counter, a patch bump raises the patch counter. `None` where the
    /// counter to raise cannot grow.
    pub fn bumped(&self, bump: VersionBump) -> (r: Option<Version>)
        ensures
            r matches Some(v) ==> bumped(self@, bump) == Some(v@),
            r is None ==> bumped(self@, bump) is None,
    {
        match bump {
            VersionBump::Major => if self.major < u64::MAX {
                Some(Version::new(self.major + 1, 0, 0))
            } else {
                None
            },
            VersionBump::Minor => if self.minor < u64::MAX {
                Some(Version::new(self.major, self.minor + 1, 0))
            } else {
                None
            },
            VersionBump::Patch => if self.patch < u64::MAX {
                Some(Version::new(self.major, self.minor, self.patch + 1))
            } else {
                None
            },
        }
    }

    /// The text of the version, as a manifest stores it.
    pub fn to_string(&self) -> (r: String)
        ensures
            r@ == version_text(self@),
    {
        proof {
            reveal_strlit(".");
            reveal_strlit("-");
            reveal_strlit("+");
        }
        let mut out = String::new();
        push_decimal(&mut out, self.major);
        out.append(".");
        push_decimal(&mut out, self.minor);
        out.append(".");
        push_decimal(&mut out, self.patch);
        if self.pre.as_str().unicode_len() > 0 {
            out.append("-");
            out.append(self.pre.as_str());
        }
        if self.build.as_str().unicode_len() > 0 {
            out.append("+");
            out.append(self.build.as_str());
        }
        out
    }

    pub fn copy(&self) -> (r: Version)
        ensures
            r@ == self@,
    {
        Version {
            major: self.major,
            minor: self.minor,
            patch: self.patch,
            pre: self.pre.clone(),
            build: self.build.clone(),
        }
    }
}

} // verus!
