use vstd::prelude::*;

verus! {

/// One output whose two builds differ: its name and the content hash of each attempt.
pub struct OutputMismatch {
    pub output: String,
    pub hash_a: String,
    pub hash_b: String,
}

/// What came of building a definition twice.
pub enum OutcomeStatus {
    /// Both attempts are bit-identical.
    Reproducible,
    /// The first attempt did not complete.
    FirstFailed,
    /// The first attempt succeeded and the second did not: nothing was compared.
    SecondFailed,
    /// Both attempts completed and differ on the listed outputs.
    Unreproducible(Vec<OutputMismatch>),
}

/// The recorded result for one definition under one requested revision.
pub struct Outcome {
    pub revision: String,
    pub definition: String,
    pub status: OutcomeStatus,
}

/// The four states an outcome can be in, without their data.
pub enum StatusKind {
    Reproducible,
    FirstFailed,
    SecondFailed,
    Unreproducible,
}

/// The state of a status.
pub open spec fn kind_of(s: OutcomeStatus) -> StatusKind {
    match s {
        OutcomeStatus::Reproducible => StatusKind::Reproducible,
        OutcomeStatus::FirstFailed => StatusKind::FirstFailed,
        OutcomeStatus::SecondFailed => StatusKind::SecondFailed,
        OutcomeStatus::Unreproducible(_) => StatusKind::Unreproducible,
    }
}

/// `id` is one of the definitions in scope.
pub open spec fn in_scope(scope: Seq<String>, id: Seq<char>) -> bool {
    exists|k: int| 0 <= k < scope.len() && #[trigger] scope[k]@ == id
}

/// An outcome belongs in the report: same revision, definition in scope.
pub open spec fn is_relevant(o: Outcome, revision: Seq<char>, scope: Seq<String>) -> bool {
    o.revision@ == revision && in_scope(scope, o.definition@)
}

/// Indices of the relevant outcomes among the first `n`, in arrival order.
pub open spec fn selection(outs: Seq<Outcome>, revision: Seq<char>, scope: Seq<String>, n: nat) -> Seq<usize>
    decreases n,
{
    if n == 0 {
        Seq::empty()
    } else {
        let prev = selection(outs, revision, scope, (n - 1) as nat);
        if is_relevant(outs[n - 1], revision, scope) {
            prev.push((n - 1) as usize)
        } else {
            prev
        }
    }
}

/// Of the selected indices, those whose outcome has kind `k`, in the same order.
pub open spec fn picks(outs: Seq<Outcome>, sel: Seq<usize>, k: StatusKind) -> Seq<usize>
    decreases sel.len(),
{
    if sel.len() == 0 {
        Seq::empty()
    } else {
        let prev = picks(outs, sel.drop_last(), k);
        if kind_of(outs[sel.last() as int].status) == k {
            prev.push(sel.last())
        } else {
            prev
        }
    }
}

/// Whether `id` equals one of the strings in `scope`.
pub fn scope_contains(scope: &Vec<String>, id: &String) -> (r: bool)
    ensures
        r == in_scope(scope@, id@),
{
    let mut k: usize = 0;
    while k < scope.len()
        invariant
            k <= scope@.len(),
            forall|j: int| 0 <= j < k ==> #[trigger] scope@[j]@ != id@,
        decreases scope@.len() - k,
    {
        if scope[k] == *id {
            return true;
        }
        k = k + 1;
    }
    false
}

/// The outcomes that concern this report, as indices into `outcomes`, in arrival order.
pub fn select_outcomes(outcomes: &Vec<Outcome>, revision: &String, scope: &Vec<String>) -> (r: Vec<usize>)
    ensures
        r@ == selection(outcomes@, revision@, scope@, outcomes@.len()),
{
    let mut r: Vec<usize> = Vec::new();
    let mut i: usize = 0;
    while i < outcomes.len()
        invariant
            i <= outcomes@.len(),
            r@ == selection(outcomes@, revision@, scope@, i as nat),
        decreases outcomes@.len() - i,
    {
        let o = &outcomes[i];
        if o.revision == *revision && scope_contains(scope, &o.definition) {
            r.push(i);
        }
        i = i + 1;
    }
    r
}

/// The selected outcomes counted by state.
pub struct Tally {
    pub total: usize,
    pub reproduced: usize,
    pub unchecked: usize,
    pub first_failed: Vec<usize>,
    pub unreproducible: Vec<usize>,
}

/// The tally that `sel` gives over `outs`.
pub open spec fn tallies(t: Tally, outs: Seq<Outcome>, sel: Seq<usize>) -> bool {
    &&& t.total == sel.len()
    &&& t.reproduced == picks(outs, sel, StatusKind::Reproducible).len()
    &&& t.unchecked == picks(outs, sel, StatusKind::SecondFailed).len()
    &&& t.first_failed@ == picks(outs, sel, StatusKind::FirstFailed)
    &&& t.unreproducible@ == picks(outs, sel, StatusKind::Unreproducible)
}

proof fn lemma_picks_len(outs: Seq<Outcome>, sel: Seq<usize>, k: StatusKind)
    ensures
        picks(outs, sel, k).len() <= sel.len(),
    decreases sel.len(),
{
    if sel.len() > 0 {
        lemma_picks_len(outs, sel.drop_last(), k);
    }
}

/// One pass over the selected outcomes, sorting each into its state.
pub fn tally(outcomes: &Vec<Outcome>, sel: &Vec<usize>) -> (t: Tally)
    requires
        forall|j: int| 0 <= j < sel@.len() ==> #[trigger] sel@[j] < outcomes@.len(),
    ensures
        tallies(t, outcomes@, sel@),
{
    let mut t = Tally {
        total: 0,
        reproduced: 0,
        unchecked: 0,
        first_failed: Vec::new(),
        unreproducible: Vec::new(),
    };
    let mut j: usize = 0;
    while j < sel.len()
        invariant
            j <= sel@.len(),
            forall|m: int| 0 <= m < sel@.len() ==> #[trigger] sel@[m] < outcomes@.len(),
            tallies(t, outcomes@, sel@.subrange(0, j as int)),
        decreases sel@.len() - j,
    {
        let ghost prefix = sel@.subrange(0, j as int);
        let ghost next = sel@.subrange(0, j + 1);
        assert(next.drop_last() =~= prefix);
        proof {
            lemma_picks_len(outcomes@, prefix, StatusKind::Reproducible);
            lemma_picks_len(outcomes@, prefix, StatusKind::SecondFailed);
        }
        let i = sel[j];
        match &outcomes[i].status {
            OutcomeStatus::Reproducible => {
                t.reproduced = t.reproduced + 1;
            },
            OutcomeStatus::FirstFailed => {
                t.first_failed.push(i);
            },
            OutcomeStatus::SecondFailed => {
                t.unchecked = t.unchecked + 1;
            },
            OutcomeStatus::Unreproducible(_) => {
                t.unreproducible.push(i);
            },
        }
        t.total = t.total + 1;
        j = j + 1;
    }
    assert(sel@.subrange(0, sel@.len() as int) =~= sel@);
    t
}

/// Every selected outcome lands in exactly one of the four counts.
pub proof fn lemma_tally_partitions(outs: Seq<Outcome>, sel: Seq<usize>)
    ensures
        picks(outs, sel, StatusKind::Reproducible).len() + picks(outs, sel, StatusKind::SecondFailed).len()
            + picks(outs, sel, StatusKind::Unreproducible).len() + picks(outs, sel, StatusKind::FirstFailed).len()
            == sel.len(),
    decreases sel.len(),
{
    if sel.len() > 0 {
        lemma_tally_partitions(outs, sel.drop_last());
    }
}

/// What `picks` keeps has kind `k` and comes from the selection.
pub proof fn lemma_picks_members(outs: Seq<Outcome>, sel: Seq<usize>, k: StatusKind)
    ensures
        forall|j: int| 0 <= j < picks(outs, sel, k).len() ==> {
            &&& kind_of(outs[#[trigger] picks(outs, sel, k)[j] as int].status) == k
            &&& sel.contains(picks(outs, sel, k)[j])
        },
    decreases sel.len(),
{
    if sel.len() > 0 {
        lemma_picks_members(outs, sel.drop_last(), k);
        let prev = picks(outs, sel.drop_last(), k);
        let cur = picks(outs, sel, k);
        assert forall|j: int| 0 <= j < cur.len() implies {
            &&& kind_of(outs[#[trigger] cur[j] as int].status) == k
            &&& sel.contains(cur[j])
        } by {
            if j < prev.len() {
                assert(cur[j] == prev[j]);
                let m = choose|m: int| 0 <= m < sel.drop_last().len() && sel.drop_last()[m] == prev[j];
                assert(sel[m] == prev[j]);
            } else {
                assert(sel[sel.len() - 1] == cur[j]);
            }
        }
    }
}

/// A selection holds only in-range indices, strictly increasing.
pub proof fn lemma_selection_in_range(outs: Seq<Outcome>, revision: Seq<char>, scope: Seq<String>, n: nat)
    requires
        n <= outs.len() <= usize::MAX,
    ensures
        forall|j: int| 0 <= j < selection(outs, revision, scope, n).len()
            ==> #[trigger] selection(outs, revision, scope, n)[j] < n,
    decreases n,
{
    if n > 0 {
        lemma_selection_in_range(outs, revision, scope, (n - 1) as nat);
        let prev = selection(outs, revision, scope, (n - 1) as nat);
        let cur = selection(outs, revision, scope, n);
        assert forall|j: int| 0 <= j < cur.len() implies #[trigger] cur[j] < n by {
            if j < prev.len() {
                assert(prev[j] < n - 1);
                assert(cur[j] == prev[j]);
            }
        }
    }
}

/// Each index is larger than the one before it.
pub open spec fn strictly_increasing(s: Seq<usize>) -> bool {
    forall|a: int, b: int| 0 <= a < b < s.len() ==> #[trigger] s[a] < #[trigger] s[b]
}

proof fn lemma_selection_increasing(outs: Seq<Outcome>, revision: Seq<char>, scope: Seq<String>, n: nat)
    requires
        n <= outs.len() <= usize::MAX,
    ensures
        strictly_increasing(selection(outs, revision, scope, n)),
    decreases n,
{
    if n > 0 {
        lemma_selection_increasing(outs, revision, scope, (n - 1) as nat);
        lemma_selection_in_range(outs, revision, scope, (n - 1) as nat);
        let prev = selection(outs, revision, scope, (n - 1) as nat);
        let cur = selection(outs, revision, scope, n);
        assert forall|a: int, b: int| 0 <= a < b < cur.len() implies #[trigger] cur[a] < #[trigger] cur[b] by {
            assert(cur[a] == prev[a]);
            if b < prev.len() {
                assert(cur[b] == prev[b]);
            } else {
                assert(prev[a] < n - 1);
            }
        }
    }
}

proof fn lemma_picks_increasing(outs: Seq<Outcome>, sel: Seq<usize>, k: StatusKind)
    requires
        strictly_increasing(sel),
    ensures
        strictly_increasing(picks(outs, sel, k)),
        forall|j: int| 0 <= j < picks(outs, sel, k).len() && sel.len() > 0 ==> #[trigger] picks(outs, sel, k)[j] <= sel.last(),
    decreases sel.len(),
{
    if sel.len() > 0 {
        let init = sel.drop_last();
        assert(strictly_increasing(init)) by {
            assert forall|a: int, b: int| 0 <= a < b < init.len() implies #[trigger] init[a] < #[trigger] init[b] by {
                assert(init[a] == sel[a] && init[b] == sel[b]);
            }
        }
        lemma_picks_increasing(outs, init, k);
        let prev = picks(outs, init, k);
        let cur = picks(outs, sel, k);
        assert forall|j: int| 0 <= j < prev.len() implies #[trigger] prev[j] < sel.last() by {
            assert(init.len() > 0);
            assert(init.last() == sel[sel.len() - 2]);
            assert(sel[sel.len() - 2] < sel[sel.len() - 1]);
        }
        assert forall|a: int, b: int| 0 <= a < b < cur.len() implies #[trigger] cur[a] < #[trigger] cur[b] by {
            assert(cur[a] == prev[a]);
            if b < prev.len() {
                assert(cur[b] == prev[b]);
            }
        }
    }
}

/// The unreproducible outcomes are listed in the order in which they arrived.
pub proof fn lemma_unreproducible_in_arrival_order(outs: Seq<Outcome>, revision: Seq<char>, scope: Seq<String>)
    requires
        outs.len() <= usize::MAX,
    ensures
        strictly_increasing(picks(outs, selection(outs, revision, scope, outs.len()), StatusKind::Unreproducible)),
{
    lemma_selection_increasing(outs, revision, scope, outs.len());
    lemma_picks_increasing(outs, selection(outs, revision, scope, outs.len()), StatusKind::Unreproducible);
}

} // verus!
