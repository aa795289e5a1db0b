use vstd::prelude::*;

use crate::table::CtxEntry;
use crate::table::Follower;
use crate::table::MAX_CONTEXT_SIZE;
use crate::table::entries_wf;
use crate::table::followers_view;
use crate::table::followers_wf;
use crate::table::lemma_followers_view_dom;
use crate::table::lemma_followers_view_push;
use crate::table::lemma_followers_view_update;
use crate::table::lemma_table_view_at;
use crate::table::lemma_table_view_dom;
use crate::table::lemma_table_view_push;
use crate::table::lemma_table_view_update;
use crate::table::table_view;
use crate::tokenizer::concat_all;
use crate::tokenizer::lemma_tokenize_round_trip;
use crate::tokenizer::spec_tokenize;
use crate::tokenizer::tokenize;

verus! {

/// The learned model: context -> (next token -> occurrence count).
pub type FreqTable = Map<Seq<Seq<char>>, Map<Seq<char>, nat>>;

/// The count recorded for `t` after context `c`, zero when absent.
pub open spec fn count_of(m: FreqTable, c: Seq<Seq<char>>, t: Seq<char>) -> nat {
    if m.dom().contains(c) && m[c].dom().contains(t) {
        m[c][t]
    } else {
        0
    }
}

/// The next-token distribution of context `c`, empty when absent.
pub open spec fn inner_of(m: FreqTable, c: Seq<Seq<char>>) -> Map<Seq<char>, nat> {
    if m.dom().contains(c) {
        m[c]
    } else {
        Map::empty()
    }
}

/// One more observation; counts saturate at the machine word.
pub open spec fn bump_count(n: nat) -> nat {
    if n < usize::MAX as nat {
        n + 1
    } else {
        n
    }
}

/// The table after recording one (context, next token) observation.
pub open spec fn bumped(m: FreqTable, c: Seq<Seq<char>>, t: Seq<char>) -> FreqTable {
    m.insert(c, inner_of(m, c).insert(t, bump_count(count_of(m, c, t))))
}

/// The table after recording `t` under every suffix of `hist` of length 1..=cs.
pub open spec fn record_all(m: FreqTable, hist: Seq<Seq<char>>, t: Seq<char>, cs: int) -> FreqTable
    decreases cs,
{
    if cs <= 0 {
        m
    } else {
        bumped(record_all(m, hist, t, cs - 1), hist.skip(hist.len() - cs), t)
    }
}

/// The sliding history just before token `i`: the most recent tokens, at most
/// `MAX_CONTEXT_SIZE` of them.
pub open spec fn hist_at(toks: Seq<Seq<char>>, i: int) -> Seq<Seq<char>> {
    if i <= MAX_CONTEXT_SIZE {
        toks.subrange(0, i)
    } else {
        toks.subrange(i - MAX_CONTEXT_SIZE, i)
    }
}

/// The table after training on the first `i` tokens of `toks`.
pub open spec fn spec_train_upto(m: FreqTable, toks: Seq<Seq<char>>, i: int) -> FreqTable
    decreases i,
{
    if i <= 0 {
        m
    } else {
        let h = hist_at(toks, i - 1);
        record_all(spec_train_upto(m, toks, i - 1), h, toks[i - 1], h.len() as int)
    }
}

/// The table after training on the whole token sequence `toks`.
pub open spec fn spec_train(m: FreqTable, toks: Seq<Seq<char>>) -> FreqTable {
    spec_train_upto(m, toks, toks.len() as int)
}

/// The variable-order context model: a frequency table built by `train` and
/// sampled by `prompt`.
pub struct Brain {
    pub(crate) entries: Vec<CtxEntry>,
}

impl View for Brain {
    type V = FreqTable;

    closed spec fn view(&self) -> FreqTable {
        table_view(self.entries@)
    }
}

impl Brain {
    /// Contexts and next tokens are stored without duplicates, every count is
    /// at least one, and no context is stored without a next token.
    pub closed spec fn wf(&self) -> bool {
        entries_wf(self.entries@)
    }

    /// Splits `s` into tokens: a maximal alphanumeric run starting at an
    /// alphanumeric character (extended only over ASCII-alphanumeric
    /// characters), or a single character otherwise. Concatenating the
    /// tokens reproduces `s` exactly.
    pub fn tokenize(s: &str) -> (r: Vec<String>)
        ensures
            r.deep_view() == spec_tokenize(s@),
            concat_all(r.deep_view()) == s@,
    {
        proof {
            lemma_tokenize_round_trip(s@);
        }
        tokenize(s)
    }

    pub(crate) fn find_context(&self, ctx: &Vec<String>) -> (r: Option<usize>)
        ensures
            match r {
                Some(k) => k < self.entries@.len() && self.entries@[k as int].context.deep_view()
                    == ctx.deep_view(),
                None => forall|k: int|
                    0 <= k < self.entries@.len() ==> (#[trigger] self.entries@[k]).context.deep_view()
                        != ctx.deep_view(),
            },
    {
        let mut k: usize = 0;
        while k < self.entries.len()
            invariant
                k <= self.entries@.len(),
                forall|l: int|
                    0 <= l < k ==> (#[trigger] self.entries@[l]).context.deep_view()
                        != ctx.deep_view(),
            decreases self.entries@.len() - k,
        {
            if ctx_eq(&self.entries[k].context, ctx) {
                return Some(k);
            }
            k = k + 1;
        }
        None
    }

    /// Tokenizes `text` and records, for every token and every context length
    /// from 1 up to the history available (at most `MAX_CONTEXT_SIZE`), that
    /// the token followed that context. Counts accumulate across calls and
    /// never decrease.
    pub fn train(&mut self, text: &str)
        requires
            old(self).wf(),
        ensures
            final(self).wf(),
            final(self)@ == spec_train(old(self)@, spec_tokenize(text@)),
            forall|c: Seq<Seq<char>>, t: Seq<char>|
                count_of(final(self)@, c, t) >= count_of(old(self)@, c, t),
    {
        let toks = Self::tokenize(text);
        let ghost tv = toks.deep_view();
        let ghost m0 = self@;
        let mut hist: Vec<String> = Vec::new();
        let mut i: usize = 0;
        proof {
            assert(hist.deep_view() =~= hist_at(tv, 0));
        }
        while i < toks.len()
            invariant
                self.wf(),
                i <= toks@.len(),
                tv == toks.deep_view(),
                self@ == spec_train_upto(m0, tv, i as int),
                hist.deep_view() == hist_at(tv, i as int),
                hist@.len() <= MAX_CONTEXT_SIZE,
            decreases toks@.len() - i,
        {
            let ghost mi = self@;
            let ghost h = hist.deep_view();
            proof {
                assert(tv[i as int] == toks@[i as int]@);
            }
            let mut cs: usize = 1;
            while cs <= hist.len()
                invariant
                    self.wf(),
                    i < toks@.len(),
                    tv == toks.deep_view(),
                    tv[i as int] == toks@[i as int]@,
                    h == hist.deep_view(),
                    hist@.len() <= MAX_CONTEXT_SIZE,
                    1 <= cs <= hist@.len() + 1,
                    self@ == record_all(mi, h, tv[i as int], cs as int - 1),
                decreases hist@.len() + 1 - cs,
            {
                let ctx = tail_of(&hist, cs);
                self.record(ctx, &toks[i]);
                proof {
                    assert(record_all(mi, h, tv[i as int], cs as int) == bumped(
                        record_all(mi, h, tv[i as int], cs as int - 1),
                        h.skip(h.len() - cs as int),
                        tv[i as int],
                    ));
                }
                cs = cs + 1;
            }
            proof {
                assert(self@ == record_all(mi, h, tv[i as int], h.len() as int));
                assert(spec_train_upto(m0, tv, i as int + 1) == record_all(
                    spec_train_upto(m0, tv, i as int),
                    hist_at(tv, i as int),
                    tv[i as int],
                    hist_at(tv, i as int).len() as int,
                ));
            }
            let t_owned = toks[i].clone();
            let ghost pushed = h.push(tv[i as int]);
            hist.push(t_owned);
            proof {
                assert(hist.deep_view() =~= pushed);
            }
            if hist.len() > MAX_CONTEXT_SIZE {
                hist.remove(0);
                proof {
                    assert(hist.deep_view() =~= pushed.remove(0));
                }
            }
            proof {
                assert(hist.deep_view() =~= hist_at(tv, i as int + 1));
            }
            i = i + 1;
        }
        proof {
            assert forall|c: Seq<Seq<char>>, t: Seq<char>|
                count_of(self@, c, t) >= count_of(m0, c, t) by {
                crate::laws::lemma_train_monotone(m0, tv, c, t);
            }
        }
    }

    /// The recorded occurrence count of `tok` after context `ctx`, zero when
    /// the pair was never observed.
    pub fn count(&self, ctx: &Vec<String>, tok: &String) -> (r: usize)
        requires
            self.wf(),
        ensures
            r as nat == count_of(self@, ctx.deep_view(), tok@),
    {
        proof {
            lemma_table_view_dom(self.entries@);
        }
        match self.find_context(ctx) {
            None => {
                proof {
                    assert(!self@.dom().contains(ctx.deep_view())) by {
                        if self@.dom().contains(ctx.deep_view()) {
                            let k = choose|k: int|
                                0 <= k < self.entries@.len() && (#[trigger] self.entries@[k]).context.deep_view()
                                    == ctx.deep_view();
                            assert(self.entries@[k].context.deep_view() != ctx.deep_view());
                        }
                    }
                }
                0
            },
            Some(k) => {
                proof {
                    lemma_table_view_at(self.entries@, k as int);
                    assert(followers_wf(self.entries@[k as int].followers@));
                    lemma_followers_view_dom(self.entries@[k as int].followers@);
                }
                match find_follower(&self.entries[k].followers, tok) {
                    None => {
                        proof {
                            assert(!self@[ctx.deep_view()].dom().contains(tok@)) by {
                                if self@[ctx.deep_view()].dom().contains(tok@) {
                                    let l = choose|l: int|
                                        0 <= l < self.entries@[k as int].followers@.len() && (
                                        #[trigger] self.entries@[k as int].followers@[l]).token@
                                            == tok@;
                                    assert(self.entries@[k as int].followers@[l].token@ != tok@);
                                }
                            }
                        }
                        0
                    },
                    Some(fi) => {
                        proof {
                            crate::table::lemma_followers_view_at(
                                self.entries@[k as int].followers@,
                                fi as int,
                            );
                        }
                        self.entries[k].followers[fi].count
                    },
                }
            },
        }
    }

    /// Records one observation: `tok` was seen after context `ctx`.
    pub(crate) fn record(&mut self, ctx: Vec<String>, tok: &String)
        requires
            old(self).wf(),
        ensures
            final(self).wf(),
            final(self)@ == bumped(old(self)@, ctx.deep_view(), tok@),
    {
        let ghost old_es = self.entries@;
        let ghost c = ctx.deep_view();
        let ghost t = tok@;
        proof {
            lemma_table_view_dom(old_es);
        }
        match self.find_context(&ctx) {
            None => {
                let mut fs: Vec<Follower> = Vec::new();
                fs.push(Follower { token: tok.clone(), count: 1 });
                let e = CtxEntry { context: ctx, followers: fs };
                proof {
                    lemma_table_view_push(old_es, e);
                }
                self.entries.push(e);
                proof {
                    assert(!table_view(old_es).dom().contains(c));
                    assert(count_of(table_view(old_es), c, t) == 0);
                    assert(e.followers@.len() == 1);
                    assert(e.followers@.last().token@ == t);
                    assert(e.followers@.drop_last() =~= Seq::<Follower>::empty());
                    assert(followers_view(e.followers@.drop_last()) =~= Map::<Seq<char>, nat>::empty());
                    assert(followers_view(e.followers@) =~= Map::<Seq<char>, nat>::empty().insert(
                        t,
                        1,
                    ));
                    assert(inner_of(table_view(old_es), c) =~= Map::<Seq<char>, nat>::empty());
                    assert(self@ =~= bumped(table_view(old_es), c, t));
                    assert forall|k: int, l: int|
                        0 <= k < l < self.entries@.len() implies self.entries@[k].context.deep_view()
                        != self.entries@[l].context.deep_view() by {
                        if l < self.entries@.len() - 1 {
                            assert(self.entries@[k] == old_es[k]);
                            assert(self.entries@[l] == old_es[l]);
                        } else {
                            assert(self.entries@[k] == old_es[k]);
                        }
                    }
                    assert(self.wf());
                }
            },
            Some(k) => {
                proof {
                    lemma_table_view_at(old_es, k as int);
                }
                let ghost old_fs = self.entries@[k as int].followers@;
                let mut e = self.entries.remove(k);
                proof {
                    lemma_followers_view_dom(old_fs);
                }
                match find_follower(&e.followers, tok) {
                    None => {
                        let new_f = Follower { token: tok.clone(), count: 1 };
                        let ghost f = new_f;
                        proof {
                            lemma_followers_view_push(old_fs, f);
                        }
                        e.followers.push(new_f);
                        proof {
                            assert(!followers_view(old_fs).dom().contains(t));
                            assert(count_of(table_view(old_es), c, t) == 0);
                            assert(e.followers@ =~= old_fs.push(f));
                            assert(followers_view(e.followers@) == followers_view(old_fs).insert(
                                t,
                                1,
                            ));
                            assert forall|x: int, y: int|
                                0 <= x < y < e.followers@.len() implies e.followers@[x].token@
                                != e.followers@[y].token@ by {
                                if y < e.followers@.len() - 1 {
                                    assert(e.followers@[x] == old_fs[x]);
                                    assert(e.followers@[y] == old_fs[y]);
                                } else {
                                    assert(e.followers@[x] == old_fs[x]);
                                }
                            }
                            assert(followers_wf(e.followers@));
                        }
                    },
                    Some(fi) => {
                        let mut f = e.followers.remove(fi);
                        let ghost old_f = f;
                        proof {
                            crate::table::lemma_followers_view_at(old_fs, fi as int);
                        }
                        if f.count < usize::MAX {
                            f.count = f.count + 1;
                        }
                        e.followers.insert(fi, f);
                        proof {
                            assert(e.followers@ =~= old_fs.update(fi as int, f));
                            lemma_followers_view_update(old_fs, fi as int, f);
                            assert(count_of(table_view(old_es), c, t) == old_f.count as nat);
                            assert(f.count as nat == bump_count(old_f.count as nat));
                            assert(followers_view(e.followers@) == followers_view(old_fs).insert(
                                t,
                                bump_count(count_of(table_view(old_es), c, t)),
                            ));
                            assert forall|x: int, y: int|
                                0 <= x < y < e.followers@.len() implies e.followers@[x].token@
                                != e.followers@[y].token@ by {
                                assert(old_fs[x].token@ != old_fs[y].token@);
                            }
                            assert(followers_wf(e.followers@));
                        }
                    },
                }
                self.entries.insert(k, e);
                proof {
                    assert(self.entries@ =~= old_es.update(k as int, e));
                    lemma_table_view_update(old_es, k as int, e);
                    assert(inner_of(table_view(old_es), c) == followers_view(old_fs));
                    assert(followers_view(e.followers@) == inner_of(table_view(old_es), c).insert(
                        t,
                        bump_count(count_of(table_view(old_es), c, t)),
                    ));
                    assert(self@ == bumped(table_view(old_es), c, t));
                    assert forall|x: int, y: int|
                        0 <= x < y < self.entries@.len() implies self.entries@[x].context.deep_view()
                        != self.entries@[y].context.deep_view() by {
                        assert(old_es[x].context.deep_view() != old_es[y].context.deep_view());
                    }
                    assert(self.wf());
                }
            },
        }
    }
}

pub(crate) proof fn lemma_brain_repr(b: &Brain)
    ensures
        b@ == table_view(b.entries@),
        b.wf() <==> entries_wf(b.entries@),
{
}

impl Default for Brain {
    /// A fresh model with an empty frequency table.
    fn default() -> (b: Brain)
        ensures
            b.wf(),
            b@ == Map::<Seq<Seq<char>>, Map<Seq<char>, nat>>::empty(),
    {
        Brain { entries: Vec::new() }
    }
}

fn str_eq(a: &String, b: &String) -> (r: bool)
    ensures
        r == (a@ == b@),
{
    a.eq(b)
}

pub(crate) fn ctx_eq(a: &Vec<String>, b: &Vec<String>) -> (r: bool)
    ensures
        r == (a.deep_view() == b.deep_view()),
{
    if a.len() != b.len() {
        proof {
            assert(a.deep_view().len() != b.deep_view().len());
        }
        return false;
    }
    let mut k: usize = 0;
    while k < a.len()
        invariant
            k <= a@.len(),
            a@.len() == b@.len(),
            forall|l: int| 0 <= l < k ==> (#[trigger] a@[l])@ == b@[l]@,
        decreases a@.len() - k,
    {
        if !str_eq(&a[k], &b[k]) {
            proof {
                assert(a.deep_view()[k as int] != b.deep_view()[k as int]);
            }
            return false;
        }
        k = k + 1;
    }
    proof {
        assert(a.deep_view() =~= b.deep_view());
    }
    true
}

/// The last `cs` elements of `v`, cloned.
pub(crate) fn tail_of(v: &Vec<String>, cs: usize) -> (ctx: Vec<String>)
    requires
        cs <= v@.len(),
    ensures
        ctx.deep_view() == v.deep_view().skip(v.deep_view().len() - cs),
        ctx@.len() == cs,
{
    let ghost dv = v.deep_view();
    let start = v.len() - cs;
    let mut ctx: Vec<String> = Vec::new();
    let mut k: usize = start;
    while k < v.len()
        invariant
            start == v@.len() - cs,
            cs <= v@.len(),
            dv == v.deep_view(),
            start <= k <= v@.len(),
            ctx@.len() == k - start,
            ctx.deep_view() == dv.subrange(start as int, k as int),
        decreases v@.len() - k,
    {
        let ghost old_dv = ctx.deep_view();
        ctx.push(v[k].clone());
        proof {
            assert(ctx.deep_view() =~= old_dv.push(dv[k as int]));
            assert(ctx.deep_view() =~= dv.subrange(start as int, k as int + 1));
        }
        k = k + 1;
    }
    proof {
        assert(dv.subrange(start as int, dv.len() as int) =~= dv.skip(dv.len() - cs));
    }
    ctx
}

pub(crate) fn find_follower(fs: &Vec<Follower>, tok: &String) -> (r: Option<usize>)
    ensures
        match r {
            Some(k) => k < fs@.len() && fs@[k as int].token@ == tok@,
            None => forall|k: int| 0 <= k < fs@.len() ==> (#[trigger] fs@[k]).token@ != tok@,
        },
{
    let mut k: usize = 0;
    while k < fs.len()
        invariant
            k <= fs@.len(),
            forall|l: int| 0 <= l < k ==> (#[trigger] fs@[l]).token@ != tok@,
        decreases fs@.len() - k,
    {
        if str_eq(&fs[k].token, tok) {
            return Some(k);
        }
        k = k + 1;
    }
    None
}

} // verus!
