//! The decomposition search engine.
//!
//! Starting from a single record holding the target's letter-count vector,
//! each candidate word in turn extends every existing record by zero, one,
//! two, ... uses of that word, as long as the remaining vector stays
//! non-negative.  A record whose remaining vector is zero is a solution.
//!
//! The spec functions `extend_uses`, `extend_round`, `run` and
//! `solution_lists` give the mathematical model of the search; `solve`
//! implements it and is proved to return exactly `solve_model`.

use vstd::prelude::*;

use crate::vector::counts;
use crate::vector::lemma_counts_case_insensitive;
use crate::vector::lemma_le_subtract_nonneg;
use crate::vector::lemma_occurrences_in_range;
use crate::vector::lemma_total_bounds;
use crate::vector::lemma_total_positive;
use crate::vector::lemma_total_sub;
use crate::vector::total;
use crate::vector::upper_seq;
use crate::vector::vec_add;
use crate::vector::vec_eq;
use crate::vector::vec_le;
use crate::vector::vec_nonneg;
use crate::vector::vec_sub;
use crate::vector::vec_zero;
use crate::vector::Occurrences;

verus! {

/// The model of a partial solution: the letters still required, and the
/// words chosen so far.
pub type RecordModel = (Seq<int>, Seq<Seq<char>>);

/// A candidate word with no letters at all cannot take part in any
/// decomposition and is rejected as malformed input.
pub open spec fn is_malformed(w: Seq<char>) -> bool {
    vec_zero(counts(w))
}

/// Guard of one extension step: the word's vector is non-trivial and still
/// fits inside the remaining vector.
pub open spec fn can_extend(rem: Seq<int>, wv: Seq<int>) -> bool {
    &&& vec_nonneg(rem)
    &&& vec_nonneg(wv)
    &&& !vec_zero(wv)
    &&& vec_le(wv, rem)
}

/// The records spawned from one record by using word `w` (with vector `wv`)
/// one, two, three, ... additional times, in that order, while the
/// remaining vector can still accommodate another use.
pub open spec fn extend_uses(rem: Seq<int>, ws: Seq<Seq<char>>, wv: Seq<int>, w: Seq<char>) -> Seq<
    RecordModel,
>
    decreases total(rem),
    via check_extend_uses_decreases
{
    if can_extend(rem, wv) {
        let rem2 = vec_sub(rem, wv);
        let ws2 = ws.push(w);
        seq![(rem2, ws2)] + extend_uses(rem2, ws2, wv, w)
    } else {
        Seq::empty()
    }
}

#[via_fn]
proof fn check_extend_uses_decreases(rem: Seq<int>, ws: Seq<Seq<char>>, wv: Seq<int>, w: Seq<char>) {
    if can_extend(rem, wv) {
        lemma_total_sub(rem, wv, 26);
        lemma_total_positive(wv);
        lemma_le_subtract_nonneg(wv, rem);
        lemma_total_bounds(vec_sub(rem, wv), 26);
        lemma_total_bounds(rem, 26);
    }
}

/// All records spawned from a sequence of records by one word, in record
/// order; the originals themselves are not included.
pub open spec fn extend_round(recs: Seq<RecordModel>, wv: Seq<int>, w: Seq<char>) -> Seq<
    RecordModel,
>
    decreases recs.len(),
{
    if recs.len() == 0 {
        Seq::empty()
    } else {
        extend_uses(recs[0].0, recs[0].1, wv, w) + extend_round(recs.drop_first(), wv, w)
    }
}

/// One candidate word processed: a word whose vector is not contained in
/// the target's is skipped outright; otherwise the newly spawned records
/// are appended after the existing ones.
pub open spec fn process_word(recs: Seq<RecordModel>, w: Seq<char>, tv: Seq<int>) -> Seq<
    RecordModel,
> {
    let wv = counts(w);
    if vec_le(wv, tv) {
        recs + extend_round(recs, wv, w)
    } else {
        recs
    }
}

/// The whole search: the candidate words processed in input order.
pub open spec fn run(recs: Seq<RecordModel>, cands: Seq<Seq<char>>, tv: Seq<int>) -> Seq<
    RecordModel,
>
    decreases cands.len(),
{
    if cands.len() == 0 {
        recs
    } else {
        run(process_word(recs, cands[0], tv), cands.drop_first(), tv)
    }
}

/// The word lists of the records whose remaining vector is zero, in record
/// order: the reported solutions.
pub open spec fn solution_lists(recs: Seq<RecordModel>) -> Seq<Seq<Seq<char>>>
    decreases recs.len(),
{
    if recs.len() == 0 {
        Seq::empty()
    } else {
        (if vec_zero(recs[0].0) {
            seq![recs[0].1]
        } else {
            Seq::empty()
        }) + solution_lists(recs.drop_first())
    }
}

/// The single starting record: the whole target still required, no words
/// chosen yet.
pub open spec fn initial_record(tv: Seq<int>) -> RecordModel {
    (tv, Seq::<Seq<char>>::empty())
}

/// The complete search result for a target string and candidate list.
pub open spec fn solve_model(t: Seq<char>, cands: Seq<Seq<char>>) -> Seq<Seq<Seq<char>>> {
    solution_lists(run(seq![initial_record(counts(t))], cands, counts(t)))
}

/// A partial solution under construction: the letters still required to
/// reach the target, and the candidate words chosen so far, in order.
#[derive(Debug)]
pub struct Record {
    pub remaining: Occurrences,
    pub words: Vec<String>,
}

impl View for Record {
    type V = RecordModel;

    open spec fn view(&self) -> RecordModel {
        (self.remaining@, self.words.deep_view())
    }
}

/// The models of a sequence of records.
pub open spec fn record_models(recs: Seq<Record>) -> Seq<RecordModel> {
    recs.map_values(|r: Record| r@)
}

/// The fatal input error: a candidate word without a single letter.
#[derive(Debug)]
pub struct MalformedCandidate {
    /// Position of the offending word in the candidate list.
    pub index: usize,
    /// The offending word itself.
    pub word: String,
}

/// Copy a list of chosen words.
fn clone_words(ws: &Vec<String>) -> (r: Vec<String>)
    ensures
        r.deep_view() == ws.deep_view(),
{
    let mut r: Vec<String> = Vec::new();
    let mut i: usize = 0;
    while i < ws.len()
        invariant
            i <= ws.len(),
            r@.len() == i,
            forall|k: int| 0 <= k < i ==> (#[trigger] r@[k])@ == (ws@[k])@,
        decreases ws.len() - i,
    {
        let ghost prev = r@;
        r.push(ws[i].clone());
        proof {
            assert forall|k: int| 0 <= k < i + 1 implies (#[trigger] r@[k])@ == (ws@[k])@ by {
                if k < i {
                    assert(r@[k] == prev[k]);
                }
            }
        }
        i = i + 1;
    }
    proof {
        assert forall|k: int| 0 <= k < ws@.len() implies r.deep_view()[k] == ws.deep_view()[k] by {
            assert((r@[k])@ == (ws@[k])@);
        }
        assert(r.deep_view() =~= ws.deep_view());
    }
    r
}

/// Dropping the first element of a non-empty suffix moves the suffix start
/// one to the right.
proof fn lemma_seq_skip_step<T>(s: Seq<T>, i: int)
    requires
        0 <= i < s.len(),
    ensures
        s.skip(i).len() == s.len() - i,
        s.skip(i)[0] == s[i],
        s.skip(i).drop_first() == s.skip(i + 1),
{
    assert(s.skip(i).drop_first() =~= s.skip(i + 1));
}

/// A round over one more record appends that record's spawned records.
proof fn lemma_extend_round_push(recs: Seq<RecordModel>, x: RecordModel, wv: Seq<int>, w: Seq<char>)
    ensures
        extend_round(recs.push(x), wv, w) == extend_round(recs, wv, w) + extend_uses(
            x.0,
            x.1,
            wv,
            w,
        ),
    decreases recs.len(),
{
    let p = recs.push(x);
    if recs.len() == 0 {
        assert(p.drop_first() =~= Seq::<RecordModel>::empty());
        assert(p[0] == x);
        assert(extend_round(p.drop_first(), wv, w) =~= Seq::<RecordModel>::empty());
        assert(extend_round(p, wv, w) == extend_uses(x.0, x.1, wv, w) + extend_round(
            p.drop_first(),
            wv,
            w,
        ));
        assert(extend_round(recs, wv, w) =~= Seq::<RecordModel>::empty());
        assert(extend_round(p, wv, w) =~= extend_round(recs, wv, w) + extend_uses(
            x.0,
            x.1,
            wv,
            w,
        ));
    } else {
        assert(p.drop_first() =~= recs.drop_first().push(x));
        lemma_extend_round_push(recs.drop_first(), x, wv, w);
        assert(p[0] == recs[0]);
        assert(extend_round(p, wv, w) =~= extend_round(recs, wv, w) + extend_uses(
            x.0,
            x.1,
            wv,
            w,
        ));
    }
}

/// Enumerate every exact decomposition of the target word into the given
/// candidate words.  Candidates are processed in input order; a candidate
/// without a single letter is a fatal input error, one whose letters are
/// not contained in the target's is skipped.  On success the solutions are
/// returned in record-creation order, each as its list of chosen words.
#[verifier::loop_isolation(false)]
pub fn solve(target: &str, candidates: &Vec<String>) -> (r: Result<
    Vec<Vec<String>>,
    MalformedCandidate,
>)
    requires
        target@.len() <= 0x7fff_ffff,
        forall|i: int| 0 <= i < candidates@.len() ==> (#[trigger] candidates@[i])@.len()
            <= 0x7fff_ffff,
    ensures
        r is Ok <==> (forall|i: int|
            0 <= i < candidates@.len() ==> !is_malformed(candidates.deep_view()[i])),
        r matches Ok(sols) ==> sols.deep_view() == solve_model(target@, candidates.deep_view()),
        r matches Err(e) ==> e.index < candidates@.len(),
        r matches Err(e) ==> is_malformed(candidates.deep_view()[e.index as int]),
        r matches Err(e) ==> e.word@ == candidates.deep_view()[e.index as int],
        r matches Err(e) ==> forall|i: int|
            0 <= i < e.index ==> !is_malformed(candidates.deep_view()[i]),
{
    let target_occ = Occurrences::from_string(target);
    let ghost tv = target_occ@;
    let ghost cs = candidates.deep_view();
    let mut records: Vec<Record> = Vec::new();
    let first_words: Vec<String> = Vec::new();
    records.push(Record { remaining: target_occ, words: first_words });
    let ghost full = run(seq![initial_record(tv)], cs, tv);
    proof {
        assert(record_models(records@)[0].1 =~= Seq::<Seq<char>>::empty());
        assert(record_models(records@) =~= seq![initial_record(tv)]);
        assert(cs.skip(0) =~= cs);
    }
    let mut ci: usize = 0;
    while ci < candidates.len()
        invariant
            ci <= candidates.len(),
            forall|i: int| 0 <= i < ci ==> !is_malformed(cs[i]),
            forall|k: int|
                0 <= k < records@.len() ==> vec_nonneg(
                    (#[trigger] record_models(records@)[k]).0,
                ),
            run(record_models(records@), cs.skip(ci as int), tv) == full,
        decreases candidates.len() - ci,
    {
        let wv = Occurrences::from_string(candidates[ci].as_str());
        proof {
            assert(wv@ == counts(cs[ci as int]));
        }
        if wv.is_zero() {
            proof {
                assert(is_malformed(cs[ci as int]));
            }
            return Err(MalformedCandidate { index: ci, word: candidates[ci].clone() });
        }
        proof {
            lemma_seq_skip_step(cs, ci as int);
        }
        if !wv.less_or_equal(&target_occ) {
            proof {
                assert(process_word(record_models(records@), cs[ci as int], tv)
                    == record_models(records@));
                assert(run(record_models(records@), cs.skip(ci as int), tv) == run(
                    record_models(records@),
                    cs.skip(ci + 1),
                    tv,
                ));
            }
        } else {
            let ghost base = record_models(records@);
            let ghost w = cs[ci as int];
            let mut news: Vec<Record> = Vec::new();
            let n_records = records.len();
            proof {
                assert(base.take(0) =~= Seq::<RecordModel>::empty());
            }
            let mut i: usize = 0;
            while i < n_records
                invariant
                    i <= n_records,
                    record_models(news@) == extend_round(base.take(i as int), wv@, w),
                    forall|k: int|
                        0 <= k < news@.len() ==> vec_nonneg(
                            (#[trigger] record_models(news@)[k]).0,
                        ),
                decreases n_records - i,
            {
                let mut rem = records[i].remaining;
                let mut ws = clone_words(&records[i].words);
                let ghost head = base[i as int];
                proof {
                    assert(head == (rem@, ws.deep_view()));
                    assert(vec_nonneg(rem@));
                }
                while wv.less_or_equal(&rem)
                    invariant
                        vec_nonneg(rem@),
                        record_models(news@) + extend_uses(rem@, ws.deep_view(), wv@, w)
                            == extend_round(base.take(i as int), wv@, w) + extend_uses(
                            head.0,
                            head.1,
                            wv@,
                            w,
                        ),
                        forall|k: int|
                            0 <= k < news@.len() ==> vec_nonneg(
                                (#[trigger] record_models(news@)[k]).0,
                            ),
                    decreases total(rem@),
                {
                    let ghost rem_before = rem@;
                    let ghost ws_before = ws.deep_view();
                    proof {
                        lemma_occurrences_in_range(rem);
                        lemma_occurrences_in_range(wv);
                        assert(can_extend(rem_before, wv@));
                        lemma_le_subtract_nonneg(wv@, rem_before);
                    }
                    rem.sub_assign(wv);
                    ws.push(candidates[ci].clone());
                    proof {
                        assert(ws.deep_view() =~= ws_before.push(w));
                    }
                    let next_words = clone_words(&ws);
                    let ghost prev_news = news@;
                    news.push(Record { remaining: rem, words: next_words });
                    proof {
                        assert(extend_uses(rem_before, ws_before, wv@, w) == seq![
                            (rem@, ws.deep_view()),
                        ] + extend_uses(rem@, ws.deep_view(), wv@, w));
                        assert(record_models(news@) =~= record_models(prev_news).push(
                            (rem@, ws.deep_view()),
                        ));
                        assert(record_models(news@) + extend_uses(rem@, ws.deep_view(), wv@, w)
                            =~= extend_round(base.take(i as int), wv@, w) + extend_uses(
                            head.0,
                            head.1,
                            wv@,
                            w,
                        ));
                        lemma_total_sub(rem_before, wv@, 26);
                        lemma_total_positive(wv@);
                        lemma_total_bounds(rem@, 26);
                    }
                }
                proof {
                    assert(extend_uses(rem@, ws.deep_view(), wv@, w) =~= Seq::<
                        RecordModel,
                    >::empty());
                    assert(record_models(news@) =~= extend_round(base.take(i as int), wv@, w)
                        + extend_uses(head.0, head.1, wv@, w));
                    assert(base.take(i + 1) =~= base.take(i as int).push(head));
                    lemma_extend_round_push(base.take(i as int), head, wv@, w);
                }
                i = i + 1;
            }
            records.append(&mut news);
            proof {
                assert(base.take(n_records as int) =~= base);
                assert(record_models(records@) =~= base + extend_round(base, wv@, w));
                assert(process_word(base, w, tv) == base + extend_round(base, wv@, w));
                assert(run(record_models(records@), cs.skip(ci + 1), tv) == full);
            }
        }
        ci = ci + 1;
    }
    proof {
        assert(cs.skip(cs.len() as int) =~= Seq::<Seq<char>>::empty());
        assert(record_models(records@) == full);
    }
    let mut sols: Vec<Vec<String>> = Vec::new();
    let mut k: usize = 0;
    proof {
        assert(record_models(records@).take(0) =~= Seq::<RecordModel>::empty());
    }
    while k < records.len()
        invariant
            k <= records.len(),
            sols.deep_view() == solution_lists(record_models(records@).take(k as int)),
        decreases records.len() - k,
    {
        if records[k].remaining.is_zero() {
            let chosen = clone_words(&records[k].words);
            let ghost prev_sols = sols.deep_view();
            sols.push(chosen);
            proof {
                assert(sols.deep_view() =~= prev_sols.push(records@[k as int]@.1));
            }
        }
        proof {
            lemma_solution_lists_take_step(record_models(records@), k as int);
        }
        k = k + 1;
    }
    proof {
        assert(record_models(records@).take(records@.len() as int) =~= record_models(records@));
        assert(sols.deep_view() == solve_model(target@, cs));
    }
    Ok(sols)
}

/// Taking one more record keeps, or extends by one, the solution list.
proof fn lemma_solution_lists_take_step(recs: Seq<RecordModel>, k: int)
    requires
        0 <= k < recs.len(),
    ensures
        vec_zero(recs[k].0) ==> solution_lists(recs.take(k + 1)) == solution_lists(
            recs.take(k),
        ).push(recs[k].1),
        !vec_zero(recs[k].0) ==> solution_lists(recs.take(k + 1)) == solution_lists(recs.take(k)),
{
    lemma_solution_lists_push(recs.take(k), recs[k]);
    assert(recs.take(k + 1) =~= recs.take(k).push(recs[k]));
}

/// A record appended at the end contributes its word list at the end, if
/// its remaining vector is zero.
proof fn lemma_solution_lists_push(recs: Seq<RecordModel>, x: RecordModel)
    ensures
        vec_zero(x.0) ==> solution_lists(recs.push(x)) == solution_lists(recs).push(x.1),
        !vec_zero(x.0) ==> solution_lists(recs.push(x)) == solution_lists(recs),
    decreases recs.len(),
{
    let p = recs.push(x);
    if recs.len() == 0 {
        assert(p.drop_first() =~= Seq::<RecordModel>::empty());
        assert(p[0] == x);
        assert(solution_lists(p.drop_first()) =~= Seq::<Seq<Seq<char>>>::empty());
        assert(solution_lists(recs) =~= Seq::<Seq<Seq<char>>>::empty());
        if vec_zero(x.0) {
            assert(solution_lists(p) == seq![x.1] + solution_lists(p.drop_first()));
            assert(solution_lists(p) =~= solution_lists(recs).push(x.1));
        } else {
            assert(solution_lists(p) == Seq::<Seq<Seq<char>>>::empty() + solution_lists(
                p.drop_first(),
            ));
            assert(solution_lists(p) =~= solution_lists(recs));
        }
    } else {
        assert(p.drop_first() =~= recs.drop_first().push(x));
        lemma_solution_lists_push(recs.drop_first(), x);
        assert(p[0] == recs[0]);
        if vec_zero(x.0) {
            assert(solution_lists(p) =~= solution_lists(recs).push(x.1));
        } else {
            assert(solution_lists(p) =~= solution_lists(recs));
        }
    }
}

/// The sum of the letter-count vectors of a list of words.
pub open spec fn words_sum(ws: Seq<Seq<char>>) -> Seq<int>
    decreases ws.len(),
{
    if ws.len() == 0 {
        Seq::new(26, |j: int| 0)
    } else {
        vec_add(words_sum(ws.drop_last()), counts(ws.last()))
    }
}

/// The search invariant: a record's remaining letters plus the letters of
/// its chosen words account exactly for the target's letters.
pub open spec fn accounts_for(rec: RecordModel, tv: Seq<int>) -> bool {
    vec_eq(vec_add(rec.0, words_sum(rec.1)), tv)
}

/// All records of a sequence account for the target.
pub open spec fn all_account_for(recs: Seq<RecordModel>, tv: Seq<int>) -> bool {
    forall|k: int| 0 <= k < recs.len() ==> accounts_for(#[trigger] recs[k], tv)
}

proof fn lemma_extend_uses_accounts(
    rem: Seq<int>,
    ws: Seq<Seq<char>>,
    wv: Seq<int>,
    w: Seq<char>,
    tv: Seq<int>,
)
    requires
        wv == counts(w),
        accounts_for((rem, ws), tv),
    ensures
        all_account_for(extend_uses(rem, ws, wv, w), tv),
    decreases total(rem),
{
    if can_extend(rem, wv) {
        let rem2 = vec_sub(rem, wv);
        let ws2 = ws.push(w);
        assert(ws2.drop_last() =~= ws);
        assert(ws2.last() == w);
        assert(words_sum(ws2) == vec_add(words_sum(ws), wv));
        assert(vec_eq(vec_add(rem2, words_sum(ws2)), tv));
        lemma_total_sub(rem, wv, 26);
        lemma_total_positive(wv);
        lemma_le_subtract_nonneg(wv, rem);
        lemma_total_bounds(rem2, 26);
        lemma_total_bounds(rem, 26);
        lemma_extend_uses_accounts(rem2, ws2, wv, w, tv);
        let whole = extend_uses(rem, ws, wv, w);
        assert(whole == seq![(rem2, ws2)] + extend_uses(rem2, ws2, wv, w));
        assert forall|k: int| 0 <= k < whole.len() implies accounts_for(#[trigger] whole[k], tv) by {
            if k == 0 {
                assert(whole[0] == (rem2, ws2));
            } else {
                assert(whole[k] == extend_uses(rem2, ws2, wv, w)[k - 1]);
            }
        }
    }
}

proof fn lemma_extend_round_accounts(recs: Seq<RecordModel>, wv: Seq<int>, w: Seq<char>, tv: Seq<int>)
    requires
        wv == counts(w),
        all_account_for(recs, tv),
    ensures
        all_account_for(extend_round(recs, wv, w), tv),
    decreases recs.len(),
{
    if recs.len() > 0 {
        let first = extend_uses(recs[0].0, recs[0].1, wv, w);
        assert(accounts_for(recs[0], tv));
        assert(recs[0] == (recs[0].0, recs[0].1));
        lemma_extend_uses_accounts(recs[0].0, recs[0].1, wv, w, tv);
        assert(all_account_for(recs.drop_first(), tv));
        lemma_extend_round_accounts(recs.drop_first(), wv, w, tv);
        let whole = extend_round(recs, wv, w);
        assert forall|k: int| 0 <= k < whole.len() implies accounts_for(#[trigger] whole[k], tv) by {
            if k < first.len() {
                assert(whole[k] == first[k]);
            } else {
                assert(whole[k] == extend_round(recs.drop_first(), wv, w)[k - first.len()]);
            }
        }
    }
}

proof fn lemma_run_accounts(recs: Seq<RecordModel>, cands: Seq<Seq<char>>, tv: Seq<int>)
    requires
        all_account_for(recs, tv),
    ensures
        all_account_for(run(recs, cands, tv), tv),
    decreases cands.len(),
{
    if cands.len() > 0 {
        let w = cands[0];
        let wv = counts(w);
        let stepped = process_word(recs, w, tv);
        if vec_le(wv, tv) {
            lemma_extend_round_accounts(recs, wv, w, tv);
            assert forall|k: int| 0 <= k < stepped.len() implies accounts_for(
                #[trigger] stepped[k],
                tv,
            ) by {
                if k < recs.len() {
                    assert(stepped[k] == recs[k]);
                } else {
                    assert(stepped[k] == extend_round(recs, wv, w)[k - recs.len()]);
                }
            }
        }
        lemma_run_accounts(stepped, cands.drop_first(), tv);
    }
}

proof fn lemma_solution_lists_sums(recs: Seq<RecordModel>, tv: Seq<int>)
    requires
        all_account_for(recs, tv),
    ensures
        forall|k: int| 0 <= k < solution_lists(recs).len() ==> vec_eq(
            words_sum(#[trigger] solution_lists(recs)[k]),
            tv,
        ),
    decreases recs.len(),
{
    if recs.len() > 0 {
        assert(all_account_for(recs.drop_first(), tv));
        lemma_solution_lists_sums(recs.drop_first(), tv);
        let whole = solution_lists(recs);
        let rest = solution_lists(recs.drop_first());
        assert(accounts_for(recs[0], tv));
        if vec_zero(recs[0].0) {
            assert forall|k: int| 0 <= k < whole.len() implies vec_eq(
                words_sum(#[trigger] whole[k]),
                tv,
            ) by {
                if k == 0 {
                    assert(whole[0] == recs[0].1);
                    assert(vec_eq(vec_add(recs[0].0, words_sum(recs[0].1)), tv));
                } else {
                    assert(whole[k] == rest[k - 1]);
                }
            }
        } else {
            assert forall|k: int| 0 <= k < whole.len() implies vec_eq(
                words_sum(#[trigger] whole[k]),
                tv,
            ) by {
                assert(whole[k] == rest[k]);
            }
        }
    }
}

/// Soundness of the search: every reported solution's words, with their
/// letter-count vectors summed, account exactly for the target word's
/// letter-count vector.
pub proof fn lemma_solutions_sum_to_target(t: Seq<char>, cands: Seq<Seq<char>>)
    ensures
        forall|k: int| 0 <= k < solve_model(t, cands).len() ==> vec_eq(
            words_sum(#[trigger] solve_model(t, cands)[k]),
            counts(t),
        ),
{
    let tv = counts(t);
    let start = seq![initial_record(tv)];
    assert(words_sum(Seq::<Seq<char>>::empty()) == Seq::new(26, |j: int| 0int));
    assert(vec_eq(vec_add(tv, words_sum(Seq::<Seq<char>>::empty())), tv));
    assert(all_account_for(start, tv)) by {
        assert(start[0] == initial_record(tv));
    }
    lemma_run_accounts(start, cands, tv);
    lemma_solution_lists_sums(run(start, cands, tv), tv);
}

/// Case insensitivity of the search: two targets with the same letter
/// counts — in particular a word and its case-folded form — have the same
/// solution list over any candidate list.
pub proof fn lemma_solve_case_insensitive(t1: Seq<char>, t2: Seq<char>, cands: Seq<Seq<char>>)
    requires
        counts(t1) == counts(t2),
    ensures
        solve_model(t1, cands) == solve_model(t2, cands),
{
}

/// In particular, folding the target to upper case changes nothing.
pub proof fn lemma_solve_target_folded(t: Seq<char>, cands: Seq<Seq<char>>)
    ensures
        solve_model(upper_seq(t), cands) == solve_model(t, cands),
{
    lemma_counts_case_insensitive(t);
}

/// The rendering of one solution: its words joined by single spaces.
pub open spec fn joined(ws: Seq<Seq<char>>) -> Seq<char>
    decreases ws.len(),
{
    if ws.len() == 0 {
        Seq::empty()
    } else if ws.len() == 1 {
        ws[0]
    } else {
        joined(ws.drop_last()) + seq![' '] + ws.last()
    }
}

/// Join the words of a solution with single spaces.
pub fn join_words(ws: &Vec<String>) -> (r: String)
    ensures
        r@ == joined(ws.deep_view()),
{
    let mut r = String::new();
    let mut i: usize = 0;
    while i < ws.len()
        invariant
            i <= ws.len(),
            r@ =~= joined(ws.deep_view().take(i as int)),
        decreases ws.len() - i,
    {
        if i > 0 {
            r.append(" ");
        }
        r.append(ws[i].as_str());
        proof {
            reveal_strlit(" ");
            assert(" "@ =~= seq![' ']);
            let dv = ws.deep_view();
            assert(dv.take(i + 1).drop_last() =~= dv.take(i as int));
            assert(dv.take(i + 1).last() == dv[i as int]);
        }
        i = i + 1;
    }
    proof {
        assert(ws.deep_view().take(ws@.len() as int) =~= ws.deep_view());
    }
    r
}

} // verus!
