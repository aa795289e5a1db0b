use vstd::prelude::*;

use crate::model::Brain;
use crate::model::FreqTable;
use crate::model::lemma_brain_repr;
use crate::model::tail_of;
use crate::table::Follower;
use crate::table::entries_wf;
use crate::table::MAX_CONTEXT_SIZE;
use crate::table::followers_wf;
use crate::table::lemma_followers_view_dom;
use crate::table::lemma_table_view_at;
use crate::table::lemma_table_view_dom;
use crate::tokenizer::concat_all;
use crate::tokenizer::lemma_concat_all_take;
use crate::tokenizer::lemma_tokenize_round_trip;
use crate::tokenizer::spec_tokenize;

verus! {

/// The greatest context length generation may try against `len` output
/// tokens.
pub open spec fn ctx_limit(len: int) -> int {
    if len < MAX_CONTEXT_SIZE {
        len
    } else {
        MAX_CONTEXT_SIZE as int
    }
}

/// The longest suffix of `out` of length at most `cs` that the table knows,
/// trying greater lengths first.
pub open spec fn longest_match_from(m: FreqTable, out: Seq<Seq<char>>, cs: int) -> Option<
    Seq<Seq<char>>,
>
    decreases cs,
{
    if cs <= 0 {
        None
    } else if m.dom().contains(out.skip(out.len() - cs)) {
        Some(out.skip(out.len() - cs))
    } else {
        longest_match_from(m, out, cs - 1)
    }
}

/// The longest known context for the current output `out`.
pub open spec fn longest_match(m: FreqTable, out: Seq<Seq<char>>) -> Option<Seq<Seq<char>>> {
    longest_match_from(m, out, ctx_limit(out.len() as int))
}

/// One generation step appended `t`: the longest known context of the output
/// so far exists and lists `t` as a recorded next token.
pub open spec fn step_ok(m: FreqTable, prefix: Seq<Seq<char>>, t: Seq<char>) -> bool {
    match longest_match(m, prefix) {
        Some(c) => m[c].dom().contains(t),
        None => false,
    }
}

/// What generation may produce from `seed` aiming at `target` tokens: the
/// seed verbatim, extended one recorded next token at a time, stopping at
/// `target` tokens or as soon as no context of any length matches.
pub open spec fn is_generation(
    m: FreqTable,
    seed: Seq<Seq<char>>,
    target: int,
    out: Seq<Seq<char>>,
) -> bool {
    &&& out.len() >= seed.len()
    &&& out.subrange(0, seed.len() as int) == seed
    &&& out.len() <= if seed.len() >= target {
        seed.len() as int
    } else {
        target
    }
    &&& forall|i: int|
        seed.len() <= i < out.len() ==> step_ok(m, out.subrange(0, i), #[trigger] out[i])
    &&& out.len() < target ==> longest_match(m, out) is None
}

/// Relies on rand::random_range on `0..n`: it returns a value of the range,
/// and panics only on an empty range, which the precondition excludes.
#[verifier::external_body]
fn random_below(n: usize) -> (r: usize)
    requires
        1 <= n,
    ensures
        r < n,
{
    rand::random_range(0..n)
}

/// Sum of the occurrence counts of `fs` from position `i` on.
pub(crate) open spec fn sum_from(fs: Seq<Follower>, i: int) -> nat
    decreases fs.len() - i,
{
    if 0 <= i < fs.len() {
        (fs[i].count + sum_from(fs, i + 1)) as nat
    } else {
        0
    }
}

impl Brain {
    /// The entry whose context is the longest known suffix of `out`.
    fn find_longest(&self, out: &Vec<String>) -> (r: Option<usize>)
        requires
            self.wf(),
        ensures
            match r {
                Some(k) => k < self.entries@.len() && longest_match(self@, out.deep_view())
                    == Some(self.entries@[k as int].context.deep_view()),
                None => longest_match(self@, out.deep_view()) is None,
            },
    {
        let ghost dv = out.deep_view();
        let ghost m = self@;
        proof {
            assert(dv.len() == out@.len());
            lemma_brain_repr(self);
            lemma_table_view_dom(self.entries@);
        }
        let limit: usize = if out.len() < MAX_CONTEXT_SIZE {
            out.len()
        } else {
            MAX_CONTEXT_SIZE
        };
        let mut cs: usize = limit;
        while cs >= 1
            invariant
                self.wf(),
                m == self@,
                dv == out.deep_view(),
                dv.len() == out@.len(),
                limit as int == ctx_limit(dv.len() as int),
                cs <= limit,
                longest_match_from(m, dv, limit as int) == longest_match_from(m, dv, cs as int),
                forall|c: Seq<Seq<char>>|
                    m.dom().contains(c) <==> exists|k: int|
                        0 <= k < self.entries@.len() && (#[trigger] self.entries@[k]).context.deep_view()
                            == c,
            decreases cs,
        {
            let ctx = tail_of(out, cs);
            let ghost suffix = dv.skip(dv.len() - cs as int);
            match self.find_context(&ctx) {
                Some(k) => {
                    proof {
                        assert(self.entries@[k as int].context.deep_view() == suffix);
                        assert(m.dom().contains(suffix));
                        assert(longest_match_from(m, dv, cs as int) == Some(suffix));
                    }
                    return Some(k);
                },
                None => {
                    proof {
                        assert(!m.dom().contains(suffix)) by {
                            if m.dom().contains(suffix) {
                                let k = choose|k: int|
                                    0 <= k < self.entries@.len() && (#[trigger] self.entries@[k]).context.deep_view()
                                        == suffix;
                                assert(self.entries@[k].context.deep_view() != ctx.deep_view());
                            }
                        }
                        assert(longest_match_from(m, dv, cs as int) == longest_match_from(
                            m,
                            dv,
                            cs as int - 1,
                        ));
                    }
                    cs = cs - 1;
                },
            }
        }
        None
    }

    /// Picks one recorded next token of entry `k`, weighted by its count.
    #[verifier::loop_isolation(false)]
    fn choose_next(&self, k: usize) -> (tok: String)
        requires
            self.wf(),
            k < self.entries@.len(),
        ensures
            self@.dom().contains(self.entries@[k as int].context.deep_view()),
            self@[self.entries@[k as int].context.deep_view()].dom().contains(tok@),
    {
        proof {
            lemma_brain_repr(self);
            assert(entries_wf(self.entries@));
            lemma_table_view_at(self.entries@, k as int);
            assert(followers_wf(self.entries@[k as int].followers@));
            lemma_followers_view_dom(self.entries@[k as int].followers@);
        }
        let fs = &self.entries[k].followers;
        let mut total: usize = 0;
        let mut idx: usize = 0;
        while idx < fs.len()
            invariant
                fs@ == self.entries@[k as int].followers@,
                followers_wf(fs@),
                idx <= fs@.len(),
                total as int <= sum_from(fs@, 0) - sum_from(fs@, idx as int),
                1 <= idx ==> 1 <= total,
            decreases fs@.len() - idx,
        {
            let c = fs[idx].count;
            proof {
                assert(sum_from(fs@, idx as int) == c + sum_from(fs@, idx as int + 1));
                assert(1 <= c);
            }
            if usize::MAX - total >= c {
                total = total + c;
            } else {
                total = usize::MAX;
            }
            idx = idx + 1;
        }
        proof {
            assert(fs@.len() >= 1);
            assert(sum_from(fs@, fs@.len() as int) == 0);
        }
        let r = random_below(total);
        let mut i: usize = 0;
        let mut rem = r;
        while i < fs.len() - 1
            invariant
                fs@ == self.entries@[k as int].followers@,
                followers_wf(fs@),
                1 <= fs@.len(),
                i < fs@.len(),
                (rem as int) < sum_from(fs@, i as int),
            decreases fs@.len() - i,
        {
            let c = fs[i].count;
            proof {
                assert(sum_from(fs@, i as int) == c + sum_from(fs@, i as int + 1));
            }
            if rem < c {
                let t = fs[i].token.clone();
                proof {
                    assert(fs@[i as int].token@ == t@);
                }
                return t;
            }
            rem = rem - c;
            i = i + 1;
        }
        let t = fs[i].token.clone();
        proof {
            assert(fs@[i as int].token@ == t@);
        }
        t
    }

    /// Tokenizes the seed, then repeatedly appends a recorded next token of
    /// the longest known context, until `length` tokens stand in the output
    /// or no context of any length matches; the tokens are joined back by
    /// plain concatenation. On a model whose table is empty the seed text
    /// comes back unchanged.
    pub fn prompt(&self, prompt: &str, length: usize) -> (res: String)
        requires
            self.wf(),
        ensures
            exists|toks: Seq<Seq<char>>|
                is_generation(self@, spec_tokenize(prompt@), length as int, toks) && res@
                    == concat_all(toks),
            self@.dom() == Set::<Seq<Seq<char>>>::empty() ==> res@ == prompt@,
            spec_tokenize(prompt@).len() >= length as int ==> res@ == prompt@,
    {
        let mut out = Self::tokenize(prompt);
        let ghost seed = out.deep_view();
        let ghost m = self@;
        loop
            invariant
                self.wf(),
                m == self@,
                seed == spec_tokenize(prompt@),
                out.deep_view().len() >= seed.len(),
                out.deep_view().subrange(0, seed.len() as int) == seed,
                out.deep_view().len() <= if seed.len() >= length as int {
                    seed.len() as int
                } else {
                    length as int
                },
                forall|i: int|
                    seed.len() <= i < out.deep_view().len() ==> step_ok(
                        m,
                        out.deep_view().subrange(0, i),
                        #[trigger] out.deep_view()[i],
                    ),
            ensures
                is_generation(m, seed, length as int, out.deep_view()),
            decreases length - out@.len(),
        {
            if out.len() >= length {
                break ;
            }
            match self.find_longest(&out) {
                None => {
                    break ;
                },
                Some(k) => {
                    let t = self.choose_next(k);
                    let ghost dv = out.deep_view();
                    proof {
                        assert(step_ok(m, dv, t@));
                    }
                    out.push(t);
                    proof {
                        assert(out.deep_view() =~= dv.push(t@));
                        assert(out.deep_view().subrange(0, seed.len() as int) =~= dv.subrange(
                            0,
                            seed.len() as int,
                        ));
                        assert forall|i: int|
                            seed.len() <= i < out.deep_view().len() implies step_ok(
                            m,
                            out.deep_view().subrange(0, i),
                            #[trigger] out.deep_view()[i],
                        ) by {
                            if i < dv.len() {
                                assert(out.deep_view().subrange(0, i) =~= dv.subrange(0, i));
                                assert(out.deep_view()[i] == dv[i]);
                            } else {
                                assert(out.deep_view().subrange(0, i) =~= dv);
                                assert(out.deep_view()[i] == t@);
                            }
                        }
                    }
                },
            }
        }
        let ghost toks = out.deep_view();
        let mut res = String::new();
        let mut i: usize = 0;
        while i < out.len()
            invariant
                toks == out.deep_view(),
                i <= out@.len(),
                toks.len() == out@.len(),
                res@ == concat_all(toks.take(i as int)),
            decreases out@.len() - i,
        {
            proof {
                lemma_concat_all_take(toks, i as int);
                assert(toks[i as int] == out@[i as int]@);
            }
            res.append(out[i].as_str());
            i = i + 1;
        }
        proof {
            assert(toks.take(toks.len() as int) =~= toks);
            if m.dom() == Set::<Seq<Seq<char>>>::empty() {
                crate::laws::lemma_generation_empty_model(m, seed, length as int, toks);
                lemma_tokenize_round_trip(prompt@);
            }
            if seed.len() >= length as int {
                crate::laws::lemma_generation_target_met(m, seed, length as int, toks);
                lemma_tokenize_round_trip(prompt@);
            }
        }
        res
    }
}

} // verus!
