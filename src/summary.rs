use vstd::prelude::*;
use vstd::string::*;
use crate::text::{contains_text, occurs_in};

verus! {

/// A known issue: definitions whose identifier contains `pattern` get a link to `link`.
pub struct CrossReference {
    pub pattern: String,
    pub link: String,
}

/// Indices of the table rows among the first `n` whose pattern occurs in `id`, in table order.
pub open spec fn matching_rows(table: Seq<CrossReference>, id: Seq<char>, n: nat) -> Seq<usize>
    decreases n,
{
    if n == 0 {
        Seq::empty()
    } else {
        let prev = matching_rows(table, id, (n - 1) as nat);
        if occurs_in(table[n - 1].pattern@, id) {
            prev.push((n - 1) as usize)
        } else {
            prev
        }
    }
}

/// Every row of the table whose pattern occurs in the identifier, in table order.
pub fn cross_references(id: &String, table: &Vec<CrossReference>) -> (r: Vec<usize>)
    ensures
        r@ == matching_rows(table@, id@, table@.len()),
        forall|j: int| 0 <= j < r@.len() ==> #[trigger] r@[j] < table@.len(),
{
    let mut r: Vec<usize> = Vec::new();
    let mut k: usize = 0;
    while k < table.len()
        invariant
            k <= table@.len(),
            r@ == matching_rows(table@, id@, k as nat),
        decreases table@.len() - k,
    {
        if contains_text(id.as_str(), table[k].pattern.as_str()) {
            r.push(k);
        }
        k = k + 1;
    }
    proof {
        lemma_rows_below(table@, id@, table@.len());
    }
    r
}

/// Every row whose pattern occurs in the identifier is listed, not only the first.
pub proof fn lemma_all_matches_listed(table: Seq<CrossReference>, id: Seq<char>, n: nat, k: int)
    requires
        n <= table.len() <= usize::MAX,
        0 <= k < n,
    ensures
        matching_rows(table, id, n).contains(k as usize) <==> occurs_in(table[k].pattern@, id),
    decreases n,
{
    let prev = matching_rows(table, id, (n - 1) as nat);
    lemma_rows_below(table, id, (n - 1) as nat);
    if k < n - 1 {
        lemma_all_matches_listed(table, id, (n - 1) as nat, k);
        if occurs_in(table[n - 1].pattern@, id) {
            let cur = matching_rows(table, id, n);
            assert(cur == prev.push((n - 1) as usize));
            if cur.contains(k as usize) {
                let j = choose|j: int| 0 <= j < cur.len() && cur[j] == k as usize;
                if j == prev.len() {
                    assert((k as usize) as int == k);
                    assert(((n - 1) as usize) as int == n - 1);
                } else {
                    assert(prev[j] == cur[j]);
                }
            }
            if prev.contains(k as usize) {
                let j = choose|j: int| 0 <= j < prev.len() && prev[j] == k as usize;
                assert(cur[j] == prev[j]);
            }
        }
    } else {
        let cur = matching_rows(table, id, n);
        if occurs_in(table[n - 1].pattern@, id) {
            assert(cur[prev.len() as int] == k as usize);
        } else {
            if cur.contains(k as usize) {
                let j = choose|j: int| 0 <= j < cur.len() && cur[j] == k as usize;
                assert(prev[j] < n - 1);
            }
        }
    }
}

proof fn lemma_rows_below(table: Seq<CrossReference>, id: Seq<char>, n: nat)
    requires
        n <= table.len() <= usize::MAX,
    ensures
        forall|j: int| 0 <= j < matching_rows(table, id, n).len()
            ==> #[trigger] matching_rows(table, id, n)[j] < n,
    decreases n,
{
    if n > 0 {
        lemma_rows_below(table, id, (n - 1) as nat);
        let prev = matching_rows(table, id, (n - 1) as nat);
        let cur = matching_rows(table, id, n);
        assert forall|j: int| 0 <= j < cur.len() implies #[trigger] cur[j] < n by {
            if j < prev.len() {
                assert(prev[j] < n - 1);
                assert(cur[j] == prev[j]);
            }
        }
    }
}

/// The decimal digit for `d`, for `d` below ten.
pub open spec fn digit_char(d: nat) -> char {
    if d == 0 { '0' }
    else if d == 1 { '1' }
    else if d == 2 { '2' }
    else if d == 3 { '3' }
    else if d == 4 { '4' }
    else if d == 5 { '5' }
    else if d == 6 { '6' }
    else if d == 7 { '7' }
    else if d == 8 { '8' }
    else { '9' }
}

/// The decimal digits of `n`, without leading zeros.
pub open spec fn decimal_of(n: nat) -> Seq<char>
    decreases n,
{
    if n < 10 {
        seq![digit_char(n)]
    } else {
        decimal_of(n / 10).push(digit_char(n % 10))
    }
}

/// `num / den` rounded to the nearest integer, ties to the even one.
pub open spec fn round_half_even(num: nat, den: nat) -> nat
    recommends
        den > 0,
{
    let q = num / den;
    let rem = num % den;
    if 2 * rem > den || (2 * rem == den && q % 2 == 1) {
        q + 1
    } else {
        q
    }
}

/// The share `reproduced / total` as a percentage with two decimals (`"97.32%"`), or `"n/a"`
/// when nothing was considered.
pub open spec fn percent_of(reproduced: nat, total: nat) -> Seq<char> {
    if total == 0 {
        seq!['n', '/', 'a']
    } else {
        let h = round_half_even(10000 * reproduced, total);
        decimal_of(h / 100) + seq!['.', digit_char((h % 100) / 10), digit_char(h % 10), '%']
    }
}

fn digit_text(d: u64) -> (r: &'static str)
    requires
        d < 10,
    ensures
        r@ == seq![digit_char(d as nat)],
{
    if d == 0 { proof { reveal_strlit("0"); } "0" }
    else if d == 1 { proof { reveal_strlit("1"); } "1" }
    else if d == 2 { proof { reveal_strlit("2"); } "2" }
    else if d == 3 { proof { reveal_strlit("3"); } "3" }
    else if d == 4 { proof { reveal_strlit("4"); } "4" }
    else if d == 5 { proof { reveal_strlit("5"); } "5" }
    else if d == 6 { proof { reveal_strlit("6"); } "6" }
    else if d == 7 { proof { reveal_strlit("7"); } "7" }
    else if d == 8 { proof { reveal_strlit("8"); } "8" }
    else { proof { reveal_strlit("9"); } "9" }
}

fn push_decimal(out: &mut String, n: u64)
    ensures
        final(out)@ == old(out)@ + decimal_of(n as nat),
    decreases n,
{
    if n < 10 {
        out.append(digit_text(n));
    } else {
        push_decimal(out, n / 10);
        out.append(digit_text(n % 10));
        assert(final(out)@ =~= old(out)@ + decimal_of(n as nat));
    }
}

/// Renders the share of reproduced outcomes as a percentage with two decimals; `"n/a"` when
/// the total is zero.
pub fn percent_text(reproduced: usize, total: usize) -> (r: String)
    requires
        reproduced <= total,
    ensures
        r@ == percent_of(reproduced as nat, total as nat),
{
    if total == 0 {
        proof { reveal_strlit("n/a"); }
        let r = String::from_str("n/a");
        assert(r@ =~= seq!['n', '/', 'a']);
        return r;
    }
    let num: u128 = 10000u128 * (reproduced as u128);
    let den: u128 = total as u128;
    let q: u128 = num / den;
    let rem: u128 = num % den;
    let h: u128 = if 2 * rem > den || (2 * rem == den && q % 2 == 1) { q + 1 } else { q };
    assert(h <= 10000) by {
        assert(num <= 10000 * den) by (nonlinear_arith)
            requires num == 10000 * (reproduced as u128), reproduced <= den;
        assert(q <= 10000) by (nonlinear_arith)
            requires q == num / den, num <= 10000 * den, den > 0;
        assert(q == 10000 ==> rem == 0) by (nonlinear_arith)
            requires q == num / den, rem == num % den, num <= 10000 * den, den > 0;
    }
    let whole: u64 = (h / 100) as u64;
    let frac: u64 = (h % 100) as u64;
    let mut r = String::new();
    push_decimal(&mut r, whole);
    proof { reveal_strlit("."); reveal_strlit("%"); }
    r.append(".");
    r.append(digit_text(frac / 10));
    r.append(digit_text(frac % 10));
    r.append("%");
    assert(r@ =~= percent_of(reproduced as nat, total as nat));
    r
}

} // verus!
