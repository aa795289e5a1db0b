use vstd::prelude::*;

use crate::generate::ctx_limit;
use crate::generate::is_generation;
use crate::generate::longest_match;
use crate::generate::longest_match_from;
use crate::generate::step_ok;
use crate::model::FreqTable;
use crate::model::bumped;
use crate::model::count_of;
use crate::model::hist_at;
use crate::model::record_all;
use crate::model::spec_train;
use crate::model::spec_train_upto;

verus! {

pub proof fn lemma_longest_match_in_dom(m: FreqTable, out: Seq<Seq<char>>, cs: int)
    requires
        longest_match_from(m, out, cs) is Some,
    ensures
        m.dom().contains(longest_match_from(m, out, cs)->Some_0),
    decreases cs,
{
    if cs > 0 && !m.dom().contains(out.skip(out.len() - cs)) {
        lemma_longest_match_in_dom(m, out, cs - 1);
    }
}

/// Longest-match preference: if a suffix of length `l` is a known context,
/// the context that generation settles on is at least `l` tokens long.
pub proof fn lemma_longest_match_prefers_longer(
    m: FreqTable,
    out: Seq<Seq<char>>,
    cs: int,
    l: int,
)
    requires
        1 <= l <= cs <= out.len(),
        m.dom().contains(out.skip(out.len() - l)),
    ensures
        longest_match_from(m, out, cs) is Some,
        longest_match_from(m, out, cs)->Some_0.len() >= l,
    decreases cs,
{
    if !m.dom().contains(out.skip(out.len() - cs)) {
        assert(cs != l);
        lemma_longest_match_prefers_longer(m, out, cs - 1, l);
    }
}

/// Generation length bounds: the output never loses a seed token, and never
/// exceeds the target when the target leaves room for the seed.
pub proof fn lemma_generation_length(
    m: FreqTable,
    seed: Seq<Seq<char>>,
    target: int,
    out: Seq<Seq<char>>,
)
    requires
        is_generation(m, seed, target, out),
    ensures
        seed.len() <= out.len(),
        seed.len() <= target ==> out.len() <= target,
{
}

/// When the target leaves no room beyond the seed, generation returns the
/// seed verbatim.
pub proof fn lemma_generation_target_met(
    m: FreqTable,
    seed: Seq<Seq<char>>,
    target: int,
    out: Seq<Seq<char>>,
)
    requires
        is_generation(m, seed, target, out),
        seed.len() >= target,
    ensures
        out == seed,
{
    assert(out =~= seed);
}

/// A model with an empty frequency table generates exactly the seed.
pub proof fn lemma_generation_empty_model(
    m: FreqTable,
    seed: Seq<Seq<char>>,
    target: int,
    out: Seq<Seq<char>>,
)
    requires
        m.dom() == Set::<Seq<Seq<char>>>::empty(),
        is_generation(m, seed, target, out),
    ensures
        out == seed,
{
    if out.len() > seed.len() {
        let i = seed.len() as int;
        assert(step_ok(m, out.subrange(0, i), out[i]));
        lemma_longest_match_in_dom(m, out.subrange(0, i), ctx_limit(i));
        let c = longest_match(m, out.subrange(0, i))->Some_0;
        assert(m.dom().contains(c));
        assert(false);
    }
    assert(out =~= seed);
}

proof fn lemma_bumped_monotone(
    m: FreqTable,
    c0: Seq<Seq<char>>,
    t0: Seq<char>,
    c: Seq<Seq<char>>,
    t: Seq<char>,
)
    ensures
        count_of(bumped(m, c0, t0), c, t) >= count_of(m, c, t),
{
}

proof fn lemma_record_all_monotone(
    m: FreqTable,
    hist: Seq<Seq<char>>,
    t0: Seq<char>,
    cs: int,
    c: Seq<Seq<char>>,
    t: Seq<char>,
)
    ensures
        count_of(record_all(m, hist, t0, cs), c, t) >= count_of(m, c, t),
    decreases cs,
{
    if cs > 0 {
        lemma_record_all_monotone(m, hist, t0, cs - 1, c, t);
        lemma_bumped_monotone(
            record_all(m, hist, t0, cs - 1),
            hist.skip(hist.len() - cs),
            t0,
            c,
            t,
        );
    }
}

proof fn lemma_train_upto_monotone(
    m: FreqTable,
    toks: Seq<Seq<char>>,
    i: int,
    c: Seq<Seq<char>>,
    t: Seq<char>,
)
    ensures
        count_of(spec_train_upto(m, toks, i), c, t) >= count_of(m, c, t),
    decreases i,
{
    if i > 0 {
        lemma_train_upto_monotone(m, toks, i - 1, c, t);
        lemma_record_all_monotone(
            spec_train_upto(m, toks, i - 1),
            hist_at(toks, i - 1),
            toks[i - 1],
            hist_at(toks, i - 1).len() as int,
            c,
            t,
        );
    }
}

/// Training monotonicity: for every (context, next token) pair, the count
/// after training is at least the count before; no entry is removed.
pub proof fn lemma_train_monotone(
    m: FreqTable,
    toks: Seq<Seq<char>>,
    c: Seq<Seq<char>>,
    t: Seq<char>,
)
    ensures
        count_of(spec_train(m, toks), c, t) >= count_of(m, c, t),
{
    lemma_train_upto_monotone(m, toks, toks.len() as int, c, t);
}

} // verus!
