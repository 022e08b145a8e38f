use vstd::prelude::*;
use vstd::string::*;

verus! {

/// The file name of the diff between the two attempts' contents: `{hash_a}-{hash_b}.html`.
pub open spec fn artifact_name_of(hash_a: Seq<char>, hash_b: Seq<char>) -> Seq<char> {
    hash_a + seq!['-'] + hash_b + seq!['.', 'h', 't', 'm', 'l']
}

/// The deterministic artifact file name for a pair of content hashes.
pub fn artifact_name(hash_a: &String, hash_b: &String) -> (r: String)
    ensures
        r@ == artifact_name_of(hash_a@, hash_b@),
{
    proof {
        reveal_strlit("-");
        reveal_strlit(".html");
    }
    let mut r = hash_a.clone();
    r.append("-");
    r.append(hash_b.as_str());
    r.append(".html");
    assert(r@ =~= artifact_name_of(hash_a@, hash_b@));
    r
}

/// Two different hash pairs never share an artifact name, as long as the first hash of each
/// holds no `-`.
pub proof fn lemma_artifact_names_distinct(a: Seq<char>, b: Seq<char>, c: Seq<char>, d: Seq<char>)
    requires
        !a.contains('-'),
        !c.contains('-'),
        a != c || b != d,
    ensures
        artifact_name_of(a, b) != artifact_name_of(c, d),
{
    let n = artifact_name_of(a, b);
    let m = artifact_name_of(c, d);
    if n == m {
        if a.len() < c.len() {
            assert(n[a.len() as int] == '-');
            assert(m[a.len() as int] == c[a.len() as int]);
            assert(c.contains(c[a.len() as int]));
        } else if c.len() < a.len() {
            assert(m[c.len() as int] == '-');
            assert(n[c.len() as int] == a[c.len() as int]);
            assert(a.contains(a[c.len() as int]));
        } else {
            assert(a =~= n.subrange(0, a.len() as int));
            assert(c =~= m.subrange(0, c.len() as int));
            assert(b.len() == d.len());
            assert(b =~= n.subrange(a.len() as int + 1, a.len() as int + 1 + b.len()));
            assert(d =~= m.subrange(c.len() as int + 1, c.len() as int + 1 + d.len()));
        }
    }
}

/// Whether the diff for this pair still has to be computed, given the artifacts already known.
pub open spec fn needs_diff(known: Seq<Seq<char>>, hash_a: Seq<char>, hash_b: Seq<char>) -> bool {
    !known.contains(artifact_name_of(hash_a, hash_b))
}

/// The known artifacts after a request for this pair.
pub open spec fn after_resolve(known: Seq<Seq<char>>, hash_a: Seq<char>, hash_b: Seq<char>) -> Seq<Seq<char>> {
    if needs_diff(known, hash_a, hash_b) {
        known.push(artifact_name_of(hash_a, hash_b))
    } else {
        known
    }
}

/// Asking for the same pair a second time computes nothing and leaves the cache as it was.
pub proof fn lemma_resolve_idempotent(known: Seq<Seq<char>>, hash_a: Seq<char>, hash_b: Seq<char>)
    ensures
        !needs_diff(after_resolve(known, hash_a, hash_b), hash_a, hash_b),
        after_resolve(after_resolve(known, hash_a, hash_b), hash_a, hash_b) == after_resolve(known, hash_a, hash_b),
{
    let k1 = after_resolve(known, hash_a, hash_b);
    if needs_diff(known, hash_a, hash_b) {
        assert(k1[known.len() as int] == artifact_name_of(hash_a, hash_b));
    }
}

/// The answer to one request: where the diff lives and whether it has yet to be made.
pub struct Resolution {
    pub artifact: String,
    pub compute: bool,
}

/// The artifacts known to exist: those found in the destination store when the run began,
/// and those scheduled during the run. Each name is computed at most once.
pub struct DiffCache {
    known: Vec<String>,
}

impl DiffCache {
    /// The names of the known artifacts.
    pub closed spec fn names(&self) -> Seq<Seq<char>> {
        self.known@.map_values(|s: String| s@)
    }

    /// A cache that knows the artifacts already present in the destination store.
    pub fn new(present: Vec<String>) -> (c: DiffCache)
        ensures
            c.names() == present@.map_values(|s: String| s@),
    {
        DiffCache { known: present }
    }

    /// Whether an artifact of this name is known.
    pub fn is_known(&self, name: &String) -> (r: bool)
        ensures
            r == self.names().contains(name@),
    {
        let mut k: usize = 0;
        while k < self.known.len()
            invariant
                k <= self.known@.len(),
                forall|j: int| 0 <= j < k ==> #[trigger] self.known@[j]@ != name@,
            decreases self.known@.len() - k,
        {
            if self.known[k] == *name {
                assert(self.names()[k as int] == name@);
                return true;
            }
            k = k + 1;
        }
        assert forall|j: int| 0 <= j < self.names().len() implies #[trigger] self.names()[j] != name@ by {
            assert(self.known@[j]@ != name@);
        }
        false
    }

    /// Look up the diff of one output's two contents: the artifact name, and whether the diff
    /// must be computed (only the first time the name is asked for, and only if it was not
    /// already on disk).
    pub fn resolve(&mut self, hash_a: &String, hash_b: &String) -> (r: Resolution)
        ensures
            r.artifact@ == artifact_name_of(hash_a@, hash_b@),
            r.compute == needs_diff(old(self).names(), hash_a@, hash_b@),
            final(self).names() == after_resolve(old(self).names(), hash_a@, hash_b@),
    {
        let name = artifact_name(hash_a, hash_b);
        if self.is_known(&name) {
            Resolution { artifact: name, compute: false }
        } else {
            self.known.push(name.clone());
            assert(self.names() =~= old(self).names().push(name@));
            Resolution { artifact: name, compute: true }
        }
    }
}

} // verus!
