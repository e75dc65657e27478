use vstd::prelude::*;

verus! {

/// How far a version moves: a major, minor or patch release.
#[derive(Clone, Copy, Debug, PartialEq, Eq, Structural)]
pub enum VersionBump {
    Major,
    Minor,
    Patch,
}

/// The rank of a possibly absent bump: no bump ranks lowest, then patch,
/// minor and major.
pub open spec fn rank(b: Option<VersionBump>) -> nat {
    match b {
        None => 0,
        Some(VersionBump::Patch) => 1,
        Some(VersionBump::Minor) => 2,
        Some(VersionBump::Major) => 3,
    }
}

/// The greater of two bumps.
pub open spec fn join(a: VersionBump, b: VersionBump) -> VersionBump {
    if rank(Some(a)) >= rank(Some(b)) {
        a
    } else {
        b
    }
}

/// The greater of two possibly absent bumps; absence is the least element.
pub open spec fn join_opt(a: Option<VersionBump>, b: Option<VersionBump>) -> Option<VersionBump> {
    if rank(a) >= rank(b) {
        a
    } else {
        b
    }
}

/// The token that names a bump in change records.
pub open spec fn bump_name(b: VersionBump) -> Seq<char> {
    match b {
        VersionBump::Major => seq!['m', 'a', 'j', 'o', 'r'],
        VersionBump::Minor => seq!['m', 'i', 'n', 'o', 'r'],
        VersionBump::Patch => seq!['p', 'a', 't', 'c', 'h'],
    }
}

/// The bump that a token names, if any.
pub open spec fn bump_from_name(s: Seq<char>) -> Option<VersionBump> {
    if s == bump_name(VersionBump::Major) {
        Some(VersionBump::Major)
    } else if s == bump_name(VersionBump::Minor) {
        Some(VersionBump::Minor)
    } else if s == bump_name(VersionBump::Patch) {
        Some(VersionBump::Patch)
    } else {
        None
    }
}

impl VersionBump {
    pub fn rank(&self) -> (r: u8)
        ensures
            r == rank(Some(*self)),
    {
        match self {
            VersionBump::Major => 3,
            VersionBump::Minor => 2,
            VersionBump::Patch => 1,
        }
    }

    /// The greater of the two bumps.
    pub fn max(self, other: VersionBump) -> (r: VersionBump)
        ensures
            r == join(self, other),
    {
        if self.rank() >= other.rank() {
            self
        } else {
            other
        }
    }

    /// The token of this bump: `major`, `minor` or `patch`.
    pub fn as_str(&self) -> (r: &'static str)
        ensures
            r@ == bump_name(*self),
    {
        proof {
            reveal_strlit("major");
            reveal_strlit("minor");
            reveal_strlit("patch");
        }
        match self {
            VersionBump::Major => "major",
            VersionBump::Minor => "minor",
            VersionBump::Patch => "patch",
        }
    }

    /// The token of this bump, owned.
    pub fn to_string(&self) -> (r: String)
        ensures
            r@ == bump_name(*self),
    {
        String::from_str(self.as_str())
    }

    /// Reads a bump token; anything but `major`, `minor` or `patch` is refused.
    pub fn parse(s: &str) -> (r: Option<VersionBump>)
        ensures
            r == bump_from_name(s@),
    {
        let t = String::from_str(s);
        if t == VersionBump::Major.to_string() {
            Some(VersionBump::Major)
        } else if t == VersionBump::Minor.to_string() {
            Some(VersionBump::Minor)
        } else if t == VersionBump::Patch.to_string() {
            Some(VersionBump::Patch)
        } else {
            None
        }
    }
}

/// The greater of two possibly absent bumps.
pub fn max_bump(a: Option<VersionBump>, b: Option<VersionBump>) -> (r: Option<VersionBump>)
    ensures
        r == join_opt(a, b),
{
    match (a, b) {
        (None, _) => b,
        (_, None) => a,
        (Some(x), Some(y)) => Some(x.max(y)),
    }
}

/// Bumps are totally ordered, major above minor above patch: of two bumps
/// exactly one is greater, or they are the same.
pub proof fn lemma_bump_order_total(a: VersionBump, b: VersionBump)
    ensures
        rank(Some(VersionBump::Major)) > rank(Some(VersionBump::Minor)) > rank(
            Some(VersionBump::Patch),
        ),
        (rank(Some(a)) > rank(Some(b))) || a == b || (rank(Some(b)) > rank(Some(a))),
        rank(Some(a)) == rank(Some(b)) <==> a == b,
{
}

/// Taking the greater of a bump and itself gives that bump.
pub proof fn lemma_max_idempotent(a: VersionBump)
    ensures
        join(a, a) == a,
        join_opt(Some(a), Some(a)) == Some(a),
{
}

/// Taking the greater of two bumps does not depend on their order.
pub proof fn lemma_max_commutative(a: VersionBump, b: VersionBump)
    ensures
        join(a, b) == join(b, a),
{
    lemma_bump_order_total(a, b);
}

/// The greater of two possibly absent bumps does not depend on their order,
/// nor on how three of them are grouped.
pub proof fn lemma_join_opt_laws(a: Option<VersionBump>, b: Option<VersionBump>, c: Option<VersionBump>)
    ensures
        join_opt(a, b) == join_opt(b, a),
        join_opt(join_opt(a, b), c) == join_opt(a, join_opt(b, c)),
        join_opt(a, a) == a,
        join_opt(a, None) == a,
        rank(join_opt(a, b)) >= rank(a),
        rank(join_opt(a, b)) >= rank(b),
{
}

} // verus!
