use vstd::prelude::*;
use vstd::string::*;
use crate::diff_cache::{after_resolve, artifact_name, artifact_name_of, needs_diff, DiffCache};
use crate::outcome::{
    lemma_picks_members, lemma_tally_partitions, lemma_selection_in_range, picks, select_outcomes, selection, tallies, tally,
    kind_of, Outcome, OutcomeStatus, OutputMismatch, StatusKind,
};
use crate::summary::{CrossReference, cross_references, matching_rows, percent_of, percent_text};

verus! {

/// A named output of a definition and where it is stored once built.
pub struct DeclaredOutput {
    pub name: String,
    pub location: String,
}

/// A parsed build definition: its identifier and its declared outputs.
pub struct Definition {
    pub id: String,
    pub outputs: Vec<DeclaredOutput>,
}

/// A diff that the report links to: the output it compares, where that output is declared,
/// the two attempts' hashes, and the artifact it is stored as.
pub struct DiffRequest {
    pub output: String,
    pub location: String,
    pub hash_a: String,
    pub hash_b: String,
    pub artifact: String,
}

/// A diff request as plain values: output name, location, hash of attempt A, hash of attempt B.
pub type RequestView = (Seq<char>, Seq<char>, Seq<char>, Seq<char>);

/// The plain values of a request.
pub open spec fn request_view(r: DiffRequest) -> RequestView {
    (r.output@, r.location@, r.hash_a@, r.hash_b@)
}

pub open spec fn request_views(rs: Seq<DiffRequest>) -> Seq<RequestView> {
    rs.map_values(|r: DiffRequest| request_view(r))
}

/// Position of the first of the first `n` keys equal to `key`, or -1.
pub open spec fn first_index(keys: Seq<Seq<char>>, key: Seq<char>, n: nat) -> int
    decreases n,
{
    if n == 0 {
        -1
    } else {
        let prev = first_index(keys, key, (n - 1) as nat);
        if prev >= 0 {
            prev
        } else if keys[n - 1] == key {
            n - 1
        } else {
            -1
        }
    }
}

proof fn lemma_first_index_stable(keys: Seq<Seq<char>>, key: Seq<char>, n: nat, m: nat)
    requires
        n <= m,
        first_index(keys, key, n) >= 0,
    ensures
        first_index(keys, key, m) == first_index(keys, key, n),
    decreases m - n,
{
    if n < m {
        lemma_first_index_stable(keys, key, n, (m - 1) as nat);
    }
}

pub open spec fn output_names(outs: Seq<DeclaredOutput>) -> Seq<Seq<char>> {
    outs.map_values(|o: DeclaredOutput| o.name@)
}

pub open spec fn definition_ids(defs: Seq<Definition>) -> Seq<Seq<char>> {
    defs.map_values(|d: Definition| d.id@)
}

/// Where the definition declares the output called `name`, if it does.
pub open spec fn output_index(outs: Seq<DeclaredOutput>, name: Seq<char>) -> int {
    first_index(output_names(outs), name, outs.len())
}

/// Which of the parsed definitions has identifier `id`, if one has.
pub open spec fn definition_index(defs: Seq<Definition>, id: Seq<char>) -> int {
    first_index(definition_ids(defs), id, defs.len())
}

/// Finds the first declared output of the given name.
pub fn find_output(outs: &Vec<DeclaredOutput>, name: &String) -> (r: Option<usize>)
    ensures
        r is Some <==> output_index(outs@, name@) >= 0,
        r is Some ==> r->0 == output_index(outs@, name@) && r->0 < outs@.len(),
{
    let ghost keys = output_names(outs@);
    let mut k: usize = 0;
    while k < outs.len()
        invariant
            k <= outs@.len(),
            keys == output_names(outs@),
            first_index(keys, name@, k as nat) == -1,
        decreases outs@.len() - k,
    {
        if outs[k].name == *name {
            proof {
                assert(first_index(keys, name@, (k + 1) as nat) == k);
                lemma_first_index_stable(keys, name@, (k + 1) as nat, outs@.len());
            }
            return Some(k);
        }
        k = k + 1;
    }
    None
}

/// Finds the first parsed definition with the given identifier.
pub fn find_definition(defs: &Vec<Definition>, id: &String) -> (r: Option<usize>)
    ensures
        r is Some <==> definition_index(defs@, id@) >= 0,
        r is Some ==> r->0 == definition_index(defs@, id@) && r->0 < defs@.len(),
{
    let ghost keys = definition_ids(defs@);
    let mut k: usize = 0;
    while k < defs.len()
        invariant
            k <= defs@.len(),
            keys == definition_ids(defs@),
            first_index(keys, id@, k as nat) == -1,
        decreases defs@.len() - k,
    {
        if defs[k].id == *id {
            proof {
                assert(first_index(keys, id@, (k + 1) as nat) == k);
                lemma_first_index_stable(keys, id@, (k + 1) as nat, defs@.len());
            }
            return Some(k);
        }
        k = k + 1;
    }
    None
}

pub open spec fn line(s: Seq<char>) -> Seq<char> {
    s + seq!['\n']
}

pub open spec fn head_line(id: Seq<char>) -> Seq<char> {
    line("<li><code>"@ + id + "</code><ul>"@)
}

pub open spec fn link_line(link: Seq<char>) -> Seq<char> {
    line("<li><a href=\""@ + link + "\">more info...</a></li>"@)
}

pub open spec fn diff_line(artifact: Seq<char>, output: Seq<char>) -> Seq<char> {
    line("<li><a href=\"./diff/"@ + artifact + "\">(diffoscope)</a> "@ + output + "</li>"@)
}

pub open spec fn missing_line(output: Seq<char>) -> Seq<char> {
    line("<li><code>"@ + output + "</code>: not an output of this definition</li>"@)
}

pub open spec fn close_line() -> Seq<char> {
    line("</ul></li>"@)
}

/// The "more info" lines for the given table rows, in order.
pub open spec fn link_lines(table: Seq<CrossReference>, rows: Seq<usize>) -> Seq<char>
    decreases rows.len(),
{
    if rows.len() == 0 {
        Seq::empty()
    } else {
        link_lines(table, rows.drop_last()) + link_line(table[rows.last() as int].link@)
    }
}

/// The line for one mismatched output: a link to its diff when the definition declares it,
/// a marked line otherwise.
pub open spec fn output_line(m: OutputMismatch, outs: Seq<DeclaredOutput>) -> Seq<char> {
    if output_index(outs, m.output@) >= 0 {
        diff_line(artifact_name_of(m.hash_a@, m.hash_b@), m.output@)
    } else {
        missing_line(m.output@)
    }
}

pub open spec fn output_lines(ms: Seq<OutputMismatch>, outs: Seq<DeclaredOutput>) -> Seq<char>
    decreases ms.len(),
{
    if ms.len() == 0 {
        Seq::empty()
    } else {
        output_lines(ms.drop_last(), outs) + output_line(ms.last(), outs)
    }
}

/// The diffs that one entry links to, in order: one per mismatched output that the
/// definition declares.
pub open spec fn entry_requests(ms: Seq<OutputMismatch>, outs: Seq<DeclaredOutput>) -> Seq<RequestView>
    decreases ms.len(),
{
    if ms.len() == 0 {
        Seq::empty()
    } else {
        let prev = entry_requests(ms.drop_last(), outs);
        let m = ms.last();
        let k = output_index(outs, m.output@);
        if k >= 0 {
            prev.push((m.output@, outs[k].location@, m.hash_a@, m.hash_b@))
        } else {
            prev
        }
    }
}

/// The rendered entry of one unreproducible definition.
pub open spec fn entry_text(
    id: Seq<char>,
    table: Seq<CrossReference>,
    ms: Seq<OutputMismatch>,
    outs: Seq<DeclaredOutput>,
) -> Seq<char> {
    head_line(id) + link_lines(table, matching_rows(table, id, table.len())) + output_lines(ms, outs)
        + close_line()
}

fn append_line(out: &mut String, parts: &Vec<&str>)
    ensures
        final(out)@ == old(out)@ + line(concat_all(parts@)),
{
    let mut k: usize = 0;
    while k < parts.len()
        invariant
            k <= parts@.len(),
            out@ == old(out)@ + concat_all(parts@.subrange(0, k as int)),
        decreases parts@.len() - k,
    {
        proof {
            assert(parts@.subrange(0, k + 1).drop_last() =~= parts@.subrange(0, k as int));
        }
        out.append(parts[k]);
        proof {
            assert(out@ =~= old(out)@ + concat_all(parts@.subrange(0, k + 1)));
        }
        k = k + 1;
    }
    proof {
        assert(parts@.subrange(0, parts@.len() as int) =~= parts@);
        reveal_strlit("\n");
    }
    out.append("\n");
    assert(out@ =~= old(out)@ + line(concat_all(parts@)));
}

pub open spec fn concat_all(parts: Seq<&str>) -> Seq<char>
    decreases parts.len(),
{
    if parts.len() == 0 {
        Seq::empty()
    } else {
        concat_all(parts.drop_last()) + parts.last()@
    }
}

pub open spec fn well_named(r: DiffRequest) -> bool {
    r.artifact@ == artifact_name_of(r.hash_a@, r.hash_b@)
}

pub open spec fn all_well_named(rs: Seq<DiffRequest>) -> bool {
    forall|j: int| 0 <= j < rs.len() ==> well_named(#[trigger] rs[j])
}

proof fn lemma_views_push(rs: Seq<DiffRequest>, r: DiffRequest)
    ensures
        request_views(rs.push(r)) == request_views(rs).push(request_view(r)),
{
    assert(request_views(rs.push(r)) =~= request_views(rs).push(request_view(r)));
}

/// Appends the rendered entry of one unreproducible definition to `out`, and the diffs it
/// links to to `reqs`.
fn render_entry(
    out: &mut String,
    reqs: &mut Vec<DiffRequest>,
    id: &String,
    table: &Vec<CrossReference>,
    ms: &Vec<OutputMismatch>,
    outs: &Vec<DeclaredOutput>,
)
    requires
        all_well_named(old(reqs)@),
    ensures
        final(out)@ == old(out)@ + entry_text(id@, table@, ms@, outs@),
        request_views(final(reqs)@) == request_views(old(reqs)@) + entry_requests(ms@, outs@),
        all_well_named(final(reqs)@),
{
    append_line(out, &vec!["<li><code>", id.as_str(), "</code><ul>"]);
    proof {
        reveal_with_fuel(concat_all, 4);
        assert(out@ =~= old(out)@ + head_line(id@));
    }
    let ghost after_head = out@;
    let rows = cross_references(id, table);
    let mut k: usize = 0;
    while k < rows.len()
        invariant
            k <= rows@.len(),
            rows@ == matching_rows(table@, id@, table@.len()),
            out@ == after_head + link_lines(table@, rows@.subrange(0, k as int)),
            forall|j: int| 0 <= j < rows@.len() ==> #[trigger] rows@[j] < table@.len(),
        decreases rows@.len() - k,
    {
        proof {
            assert(rows@.subrange(0, k + 1).drop_last() =~= rows@.subrange(0, k as int));
            assert(rows@[k as int] < table@.len());
        }
        let link = &table[rows[k]].link;
        append_line(out, &vec!["<li><a href=\"", link.as_str(), "\">more info...</a></li>"]);
        proof {
            reveal_with_fuel(concat_all, 4);
            assert(out@ =~= after_head + link_lines(table@, rows@.subrange(0, k + 1)));
        }
        k = k + 1;
    }
    proof {
        assert(rows@.subrange(0, rows@.len() as int) =~= rows@);
    }
    let ghost after_links = out@;
    let ghost reqs0 = request_views(reqs@);
    let mut i: usize = 0;
    while i < ms.len()
        invariant
            i <= ms@.len(),
            out@ == after_links + output_lines(ms@.subrange(0, i as int), outs@),
            request_views(reqs@) == reqs0 + entry_requests(ms@.subrange(0, i as int), outs@),
            all_well_named(reqs@),
        decreases ms@.len() - i,
    {
        proof {
            assert(ms@.subrange(0, i + 1).drop_last() =~= ms@.subrange(0, i as int));
        }
        let m = &ms[i];
        match find_output(outs, &m.output) {
            Some(k) => {
                let artifact = artifact_name(&m.hash_a, &m.hash_b);
                append_line(
                    out,
                    &vec!["<li><a href=\"./diff/", artifact.as_str(), "\">(diffoscope)</a> ", m.output.as_str(), "</li>"],
                );
                proof {
                    reveal_with_fuel(concat_all, 6);
                }
                let r = DiffRequest {
                    output: m.output.clone(),
                    location: outs[k].location.clone(),
                    hash_a: m.hash_a.clone(),
                    hash_b: m.hash_b.clone(),
                    artifact,
                };
                proof {
                    lemma_views_push(reqs@, r);
                }
                reqs.push(r);
            },
            None => {
                append_line(out, &vec!["<li><code>", m.output.as_str(), "</code>: not an output of this definition</li>"]);
                proof {
                    reveal_with_fuel(concat_all, 4);
                }
            },
        }
        proof {
            assert(out@ =~= after_links + output_lines(ms@.subrange(0, i + 1), outs@));
            assert(request_views(reqs@) =~= reqs0 + entry_requests(ms@.subrange(0, i + 1), outs@));
        }
        i = i + 1;
    }
    proof {
        assert(ms@.subrange(0, ms@.len() as int) =~= ms@);
        reveal_strlit("</ul></li>");
    }
    out.append("</ul></li>\n");
    proof {
        reveal_strlit("</ul></li>\n");
        reveal_strlit("\n");
        assert(out@ =~= old(out)@ + entry_text(id@, table@, ms@, outs@));
    }
}

/// The artifacts known after the cache has been asked for each request in turn.
pub open spec fn known_after(known: Seq<Seq<char>>, reqs: Seq<RequestView>) -> Seq<Seq<char>>
    decreases reqs.len(),
{
    if reqs.len() == 0 {
        known
    } else {
        let r = reqs.last();
        after_resolve(known_after(known, reqs.drop_last()), r.2, r.3)
    }
}

/// The requests whose diff has to be computed, in order: those whose artifact is neither
/// known at the start nor asked for by an earlier request.
pub open spec fn pending(known: Seq<Seq<char>>, reqs: Seq<RequestView>) -> Seq<RequestView>
    decreases reqs.len(),
{
    if reqs.len() == 0 {
        Seq::empty()
    } else {
        let prev = pending(known, reqs.drop_last());
        let r = reqs.last();
        if needs_diff(known_after(known, reqs.drop_last()), r.2, r.3) {
            prev.push(r)
        } else {
            prev
        }
    }
}

/// Runs the requests through the cache and keeps those whose diff must be computed.
pub fn schedule_diffs(cache: &mut DiffCache, reqs: &Vec<DiffRequest>) -> (jobs: Vec<DiffRequest>)
    requires
        all_well_named(reqs@),
    ensures
        request_views(jobs@) == pending(old(cache).names(), request_views(reqs@)),
        final(cache).names() == known_after(old(cache).names(), request_views(reqs@)),
        all_well_named(jobs@),
{
    let ghost known0 = cache.names();
    let ghost views = request_views(reqs@);
    let mut jobs: Vec<DiffRequest> = Vec::new();
    let mut i: usize = 0;
    while i < reqs.len()
        invariant
            i <= reqs@.len(),
            views == request_views(reqs@),
            all_well_named(reqs@),
            all_well_named(jobs@),
            cache.names() == known_after(known0, views.subrange(0, i as int)),
            request_views(jobs@) == pending(known0, views.subrange(0, i as int)),
        decreases reqs@.len() - i,
    {
        proof {
            assert(views.subrange(0, i + 1).drop_last() =~= views.subrange(0, i as int));
            assert(views.subrange(0, i + 1).last() == request_view(reqs@[i as int]));
        }
        let q = &reqs[i];
        let res = cache.resolve(&q.hash_a, &q.hash_b);
        if res.compute {
            let job = DiffRequest {
                output: q.output.clone(),
                location: q.location.clone(),
                hash_a: q.hash_a.clone(),
                hash_b: q.hash_b.clone(),
                artifact: res.artifact,
            };
            proof {
                lemma_views_push(jobs@, job);
            }
            jobs.push(job);
        }
        i = i + 1;
    }
    proof {
        assert(views.subrange(0, reqs@.len() as int) =~= views);
    }
    jobs
}

/// The mismatched outputs of an unreproducible outcome.
pub open spec fn mismatches_of(o: Outcome) -> Seq<OutputMismatch> {
    (o.status->Unreproducible_0)@
}

/// The parsed definition of an outcome.
pub open spec fn definition_of(defs: Seq<Definition>, o: Outcome) -> Definition {
    defs[definition_index(defs, o.definition@)]
}

/// Every listed outcome has a parsed definition.
pub open spec fn all_defined(outs: Seq<Outcome>, defs: Seq<Definition>, u: Seq<usize>) -> bool {
    forall|j: int| 0 <= j < u.len() ==> definition_index(defs, #[trigger] outs[u[j] as int].definition@) >= 0
}

/// The rendered list of unreproducible entries, one per listed outcome, in order.
pub open spec fn fragment_of(
    outs: Seq<Outcome>,
    defs: Seq<Definition>,
    table: Seq<CrossReference>,
    u: Seq<usize>,
) -> Seq<char>
    decreases u.len(),
{
    if u.len() == 0 {
        Seq::empty()
    } else {
        let o = outs[u.last() as int];
        fragment_of(outs, defs, table, u.drop_last()) + entry_text(
            o.definition@,
            table,
            mismatches_of(o),
            definition_of(defs, o).outputs@,
        )
    }
}

/// The diffs that the listed outcomes link to, in order.
pub open spec fn requests_of(outs: Seq<Outcome>, defs: Seq<Definition>, u: Seq<usize>) -> Seq<RequestView>
    decreases u.len(),
{
    if u.len() == 0 {
        Seq::empty()
    } else {
        let o = outs[u.last() as int];
        requests_of(outs, defs, u.drop_last()) + entry_requests(mismatches_of(o), definition_of(defs, o).outputs@)
    }
}

/// The summary handed to the document renderer.
pub struct ReportPayload {
    pub reproduced_count: usize,
    pub unchecked_count: usize,
    pub total_count: usize,
    pub percent: String,
    pub revision: String,
    pub generated_at: String,
    pub unreproduced_fragment: String,
}

/// A finished report: its payload, and the diffs that must be computed before it is written.
pub struct ReportPlan {
    pub payload: ReportPayload,
    pub diffs: Vec<DiffRequest>,
}

/// Why no report is produced.
pub enum ReportError {
    /// These definitions never completed a first build, in arrival order.
    IncompleteVerification(Vec<String>),
    /// An unreproducible outcome names a definition for which no parsed definition was given.
    MissingDefinition(String),
}

pub open spec fn string_views(v: Seq<String>) -> Seq<Seq<char>> {
    v.map_values(|s: String| s@)
}

/// The identifiers of the given outcomes.
pub open spec fn ids_of(outs: Seq<Outcome>, idx: Seq<usize>) -> Seq<Seq<char>> {
    idx.map_values(|i: usize| outs[i as int].definition@)
}

/// The outcomes of the report: those of the requested revision whose definition is in scope.
pub open spec fn selected(outs: Seq<Outcome>, revision: Seq<char>, scope: Seq<String>) -> Seq<usize> {
    selection(outs, revision, scope, outs.len())
}

/// What a report run gives: the fail-fast error, the missing-definition error, or a report
/// whose counts, percentage, rendered list and pending diffs are those of the selected
/// outcomes.
pub open spec fn report_outcome(
    r: Result<ReportPlan, ReportError>,
    outcomes: Seq<Outcome>,
    revision: Seq<char>,
    scope: Seq<String>,
    definitions: Seq<Definition>,
    table: Seq<CrossReference>,
    present: Seq<String>,
) -> bool {
    let sel = selected(outcomes, revision, scope);
    let failed = picks(outcomes, sel, StatusKind::FirstFailed);
    let unrep = picks(outcomes, sel, StatusKind::Unreproducible);
    &&& (r is Err && r->Err_0 is IncompleteVerification) <==> failed.len() > 0
    &&& (r is Err && r->Err_0 is IncompleteVerification) ==> string_views(
        r->Err_0->IncompleteVerification_0@,
    ) == ids_of(outcomes, failed)
    &&& (r is Err && r->Err_0 is MissingDefinition) <==> (failed.len() == 0 && !all_defined(
        outcomes,
        definitions,
        unrep,
    ))
    &&& (r is Err && r->Err_0 is MissingDefinition) ==> exists|j: int|
        0 <= j < unrep.len() && definition_index(definitions, #[trigger] outcomes[unrep[j] as int].definition@) < 0
            && all_defined(outcomes, definitions, unrep.subrange(0, j))
            && r->Err_0->MissingDefinition_0@ == outcomes[unrep[j] as int].definition@
    &&& r is Ok <==> (failed.len() == 0 && all_defined(outcomes, definitions, unrep))
    &&& r is Ok ==> {
        let p = r->Ok_0.payload;
        &&& p.total_count == sel.len()
        &&& p.reproduced_count == picks(outcomes, sel, StatusKind::Reproducible).len()
        &&& p.unchecked_count == picks(outcomes, sel, StatusKind::SecondFailed).len()
        &&& p.percent@ == percent_of(p.reproduced_count as nat, p.total_count as nat)
        &&& p.revision@ == revision
        &&& p.unreproduced_fragment@ == fragment_of(outcomes, definitions, table, unrep)
        &&& request_views(r->Ok_0.diffs@) == pending(
            string_views(present),
            requests_of(outcomes, definitions, unrep),
        )
        &&& all_well_named(r->Ok_0.diffs@)
    }
}

/// Builds the report for one revision.
///
/// The report considers the outcomes of `revision` whose definition is in `scope`, in arrival
/// order. If any of them failed its first build, no report is made and the error lists those
/// definitions. Otherwise every unreproducible outcome needs a parsed definition in
/// `definitions`; its entry links to the cross-references whose pattern occurs in its
/// identifier and to one diff per mismatched output that the definition declares. Artifacts
/// named in `present` already exist in the destination store; `diffs` holds one request for
/// each other artifact that the report links to, the first time it is linked.
pub fn plan_report(
    outcomes: &Vec<Outcome>,
    revision: &String,
    scope: &Vec<String>,
    definitions: &Vec<Definition>,
    table: &Vec<CrossReference>,
    present: Vec<String>,
    generated_at: String,
) -> (r: Result<ReportPlan, ReportError>)
    ensures
        report_outcome(r, outcomes@, revision@, scope@, definitions@, table@, present@),
        r is Ok ==> r->Ok_0.payload.generated_at == generated_at,
{
    let sel = select_outcomes(outcomes, revision, scope);
    let n_outcomes = outcomes.len();
    proof {
        lemma_selection_in_range(outcomes@, revision@, scope@, outcomes@.len());
        lemma_tally_partitions(outcomes@, sel@);
        lemma_picks_members(outcomes@, sel@, StatusKind::FirstFailed);
        lemma_picks_members(outcomes@, sel@, StatusKind::Unreproducible);
    }
    let t = tally(outcomes, &sel);
    let ghost failed = t.first_failed@;
    let ghost u = t.unreproducible@;
    proof {
        assert forall|j: int| 0 <= j < failed.len() implies #[trigger] failed[j] < outcomes@.len() by {
            let m = choose|m: int| 0 <= m < sel@.len() && sel@[m] == failed[j];
        }
        assert forall|j: int| 0 <= j < u.len() implies #[trigger] u[j] < outcomes@.len() by {
            let m = choose|m: int| 0 <= m < sel@.len() && sel@[m] == u[j];
        }
    }
    if t.first_failed.len() > 0 {
        let mut ids: Vec<String> = Vec::new();
        let mut j: usize = 0;
        while j < t.first_failed.len()
            invariant
                j <= failed.len(),
                failed == t.first_failed@,
                forall|m: int| 0 <= m < failed.len() ==> #[trigger] failed[m] < outcomes@.len(),
                string_views(ids@) == ids_of(outcomes@, failed.subrange(0, j as int)),
                ids@.len() == j,
            decreases failed.len() - j,
        {
            let ghost before = ids@;
            ids.push(outcomes[t.first_failed[j]].definition.clone());
            proof {
                assert(ids@ == before.push(ids@[j as int]));
                assert(ids@[j as int]@ == outcomes@[failed[j as int] as int].definition@);
                assert(ids_of(outcomes@, failed.subrange(0, j + 1)) =~= ids_of(outcomes@, failed.subrange(0, j as int)).push(outcomes@[failed[j as int] as int].definition@));
                assert(string_views(ids@) =~= string_views(before).push(ids@[j as int]@));
                assert(failed.subrange(0, j + 1) =~= failed.subrange(0, j as int).push(failed[j as int]));
                assert(string_views(ids@) =~= ids_of(outcomes@, failed.subrange(0, j + 1)));
            }
            j = j + 1;
        }
        proof {
            assert(failed.subrange(0, failed.len() as int) =~= failed);
        }
        return Err(ReportError::IncompleteVerification(ids));
    }
    let mut fragment = String::new();
    let mut reqs: Vec<DiffRequest> = Vec::new();
    let mut j: usize = 0;
    while j < t.unreproducible.len()
        invariant
            j <= u.len(),
            u == t.unreproducible@,
            sel@ == selected(outcomes@, revision@, scope@),
            tallies(t, outcomes@, sel@),
            t.first_failed@.len() == 0,
            forall|m: int| 0 <= m < u.len() ==> #[trigger] u[m] < outcomes@.len(),
            forall|m: int| 0 <= m < u.len() ==> kind_of(#[trigger] outcomes@[u[m] as int].status) == StatusKind::Unreproducible,
            fragment@ == fragment_of(outcomes@, definitions@, table@, u.subrange(0, j as int)),
            request_views(reqs@) == requests_of(outcomes@, definitions@, u.subrange(0, j as int)),
            all_defined(outcomes@, definitions@, u.subrange(0, j as int)),
            all_well_named(reqs@),
        decreases u.len() - j,
    {
        let ghost prefix = u.subrange(0, j as int);
        let ghost next = u.subrange(0, j + 1);
        proof {
            assert(next.drop_last() =~= prefix);
        }
        let i = t.unreproducible[j];
        let o = &outcomes[i];
        proof {
            assert(kind_of(outcomes@[u[j as int] as int].status) == StatusKind::Unreproducible);
        }
        match find_definition(definitions, &o.definition) {
            None => {
                proof {
                    assert(definition_index(definitions@, outcomes@[u[j as int] as int].definition@) < 0);
                    assert(all_defined(outcomes@, definitions@, u.subrange(0, j as int)));
                    let jj = j as int;
                    assert(0 <= jj < u.len() && definition_index(definitions@, outcomes@[u[jj] as int].definition@) < 0
                        && all_defined(outcomes@, definitions@, u.subrange(0, jj))
                        && o.definition@ == outcomes@[u[jj] as int].definition@);
                }
                return Err(ReportError::MissingDefinition(o.definition.clone()));
            },
            Some(d) => {
                match &o.status {
                    OutcomeStatus::Unreproducible(ms) => {
                        render_entry(&mut fragment, &mut reqs, &o.definition, table, ms, &definitions[d].outputs);
                    },
                    _ => {
                        proof {
                            assert(false);
                        }
                    },
                }
            },
        }
        proof {
            assert forall|m: int| 0 <= m < next.len() implies definition_index(
                definitions@,
                #[trigger] outcomes@[next[m] as int].definition@,
            ) >= 0 by {
                if m < j {
                    assert(next[m] == prefix[m]);
                }
            }
        }
        j = j + 1;
    }
    proof {
        assert(u.subrange(0, u.len() as int) =~= u);
    }
    let mut cache = DiffCache::new(present);
    let diffs = schedule_diffs(&mut cache, &reqs);
    let percent = percent_text(t.reproduced, t.total);
    let payload = ReportPayload {
        reproduced_count: t.reproduced,
        unchecked_count: t.unchecked,
        total_count: t.total,
        percent,
        revision: revision.clone(),
        generated_at,
        unreproduced_fragment: fragment,
    };
    Ok(ReportPlan { payload, diffs })
}

/// Relies on chrono's `Utc::now` and its `Display`: the current time as text. Nothing is
/// promised of its value; `Utc::now` panics only on a system clock set before 1970.
#[verifier::external_body]
fn now_text() -> (r: String) {
    chrono::Utc::now().to_string()
}

/// Builds the report for one revision, stamped with the current time.
pub fn plan_report_now(
    outcomes: &Vec<Outcome>,
    revision: &String,
    scope: &Vec<String>,
    definitions: &Vec<Definition>,
    table: &Vec<CrossReference>,
    present: Vec<String>,
) -> (r: Result<ReportPlan, ReportError>)
    ensures
        report_outcome(r, outcomes@, revision@, scope@, definitions@, table@, present@),
{
    let now = now_text();
    plan_report(outcomes, revision, scope, definitions, table, present, now)
}

} // verus!
