use vstd::prelude::*;

verus! {

/// Longest context length recorded by training and tried by generation.
pub const MAX_CONTEXT_SIZE: usize = 5;

/// One next-token candidate of a context, with its occurrence count.
pub(crate) struct Follower {
    pub(crate) token: String,
    pub(crate) count: usize,
}

/// One context of the frequency table, with its next-token candidates.
pub(crate) struct CtxEntry {
    pub(crate) context: Vec<String>,
    pub(crate) followers: Vec<Follower>,
}

/// The mathematical content of a follower list: token -> count.
pub(crate) open spec fn followers_view(fs: Seq<Follower>) -> Map<Seq<char>, nat>
    decreases fs.len(),
{
    if fs.len() == 0 {
        Map::empty()
    } else {
        followers_view(fs.drop_last()).insert(fs.last().token@, fs.last().count as nat)
    }
}

/// The mathematical content of the table: context -> (token -> count).
pub(crate) open spec fn table_view(es: Seq<CtxEntry>) -> Map<Seq<Seq<char>>, Map<Seq<char>, nat>>
    decreases es.len(),
{
    if es.len() == 0 {
        Map::empty()
    } else {
        table_view(es.drop_last()).insert(
            es.last().context.deep_view(),
            followers_view(es.last().followers@),
        )
    }
}

/// Tokens pairwise distinct, every count at least one.
pub(crate) open spec fn followers_wf(fs: Seq<Follower>) -> bool {
    &&& forall|k: int, l: int|
        0 <= k < l < fs.len() ==> fs[k].token@ != fs[l].token@
    &&& forall|k: int| 0 <= k < fs.len() ==> 1 <= (#[trigger] fs[k]).count
}

/// Contexts pairwise distinct, each entry non-empty and well formed.
pub(crate) open spec fn entries_wf(es: Seq<CtxEntry>) -> bool {
    &&& forall|k: int, l: int|
        0 <= k < l < es.len() ==> es[k].context.deep_view() != es[l].context.deep_view()
    &&& forall|k: int|
        0 <= k < es.len() ==> followers_wf((#[trigger] es[k]).followers@) && es[k].followers@.len()
            >= 1
}

pub(crate) proof fn lemma_followers_view_dom(fs: Seq<Follower>)
    ensures
        forall|t: Seq<char>|
            followers_view(fs).dom().contains(t) <==> exists|k: int|
                0 <= k < fs.len() && (#[trigger] fs[k]).token@ == t,
    decreases fs.len(),
{
    if fs.len() > 0 {
        lemma_followers_view_dom(fs.drop_last());
        assert(followers_view(fs) == followers_view(fs.drop_last()).insert(
            fs.last().token@,
            fs.last().count as nat,
        ));
        assert forall|t: Seq<char>|
            followers_view(fs).dom().contains(t) implies exists|k: int|
            0 <= k < fs.len() && (#[trigger] fs[k]).token@ == t by {
            if fs.last().token@ == t {
                assert(fs[fs.len() - 1].token@ == t);
            } else {
                assert(followers_view(fs.drop_last()).dom().contains(t));
                let k = choose|k: int|
                    0 <= k < fs.drop_last().len() && (#[trigger] fs.drop_last()[k]).token@ == t;
                assert(fs.drop_last()[k] == fs[k]);
                assert(fs[k].token@ == t);
            }
        }
        assert forall|t: Seq<char>|
            (exists|k: int| 0 <= k < fs.len() && (#[trigger] fs[k]).token@ == t)
            implies followers_view(fs).dom().contains(t) by {
            let k = choose|k: int| 0 <= k < fs.len() && (#[trigger] fs[k]).token@ == t;
            if k < fs.len() - 1 {
                assert(fs.drop_last()[k] == fs[k]);
                assert(fs.drop_last()[k].token@ == t);
                assert(followers_view(fs.drop_last()).dom().contains(t));
            }
        }
    }
}

pub(crate) proof fn lemma_followers_view_at(fs: Seq<Follower>, k: int)
    requires
        followers_wf(fs),
        0 <= k < fs.len(),
    ensures
        followers_view(fs).dom().contains(fs[k].token@),
        followers_view(fs)[fs[k].token@] == fs[k].count as nat,
    decreases fs.len(),
{
    if k < fs.len() - 1 {
        lemma_followers_view_at(fs.drop_last(), k);
        assert(fs.drop_last()[k] == fs[k]);
        assert(fs.last().token@ != fs[k].token@);
    }
}

pub(crate) proof fn lemma_followers_view_update(fs: Seq<Follower>, k: int, f: Follower)
    requires
        followers_wf(fs),
        0 <= k < fs.len(),
        f.token@ == fs[k].token@,
    ensures
        followers_view(fs.update(k, f)) == followers_view(fs).insert(f.token@, f.count as nat),
    decreases fs.len(),
{
    let upd = fs.update(k, f);
    if k == fs.len() - 1 {
        assert(upd.drop_last() =~= fs.drop_last());
        assert(followers_view(upd) == followers_view(fs.drop_last()).insert(
            f.token@,
            f.count as nat,
        ));
        assert(followers_view(fs).insert(f.token@, f.count as nat) =~= followers_view(
            fs.drop_last(),
        ).insert(f.token@, f.count as nat));
    } else {
        assert(upd.drop_last() =~= fs.drop_last().update(k, f));
        assert(upd.last() == fs.last());
        lemma_followers_view_update(fs.drop_last(), k, f);
        assert(fs.last().token@ != f.token@);
        assert(followers_view(fs.drop_last()).insert(f.token@, f.count as nat).insert(
            fs.last().token@,
            fs.last().count as nat,
        ) =~= followers_view(fs.drop_last()).insert(
            fs.last().token@,
            fs.last().count as nat,
        ).insert(f.token@, f.count as nat));
    }
}

pub(crate) proof fn lemma_followers_view_push(fs: Seq<Follower>, f: Follower)
    ensures
        followers_view(fs.push(f)) == followers_view(fs).insert(f.token@, f.count as nat),
{
    assert(fs.push(f).drop_last() =~= fs);
    assert(fs.push(f).last() == f);
}

pub(crate) proof fn lemma_table_view_dom(es: Seq<CtxEntry>)
    ensures
        forall|c: Seq<Seq<char>>|
            table_view(es).dom().contains(c) <==> exists|k: int|
                0 <= k < es.len() && (#[trigger] es[k]).context.deep_view() == c,
    decreases es.len(),
{
    if es.len() > 0 {
        lemma_table_view_dom(es.drop_last());
        assert(table_view(es) == table_view(es.drop_last()).insert(
            es.last().context.deep_view(),
            followers_view(es.last().followers@),
        ));
        assert forall|c: Seq<Seq<char>>|
            table_view(es).dom().contains(c) implies exists|k: int|
            0 <= k < es.len() && (#[trigger] es[k]).context.deep_view() == c by {
            if es.last().context.deep_view() == c {
                assert(es[es.len() - 1].context.deep_view() == c);
            } else {
                assert(table_view(es.drop_last()).dom().contains(c));
                let k = choose|k: int|
                    0 <= k < es.drop_last().len() && (#[trigger] es.drop_last()[k]).context.deep_view()
                        == c;
                assert(es.drop_last()[k] == es[k]);
                assert(es[k].context.deep_view() == c);
            }
        }
        assert forall|c: Seq<Seq<char>>|
            (exists|k: int| 0 <= k < es.len() && (#[trigger] es[k]).context.deep_view() == c)
            implies table_view(es).dom().contains(c) by {
            let k = choose|k: int| 0 <= k < es.len() && (#[trigger] es[k]).context.deep_view() == c;
            if k < es.len() - 1 {
                assert(es.drop_last()[k] == es[k]);
                assert(es.drop_last()[k].context.deep_view() == c);
                assert(table_view(es.drop_last()).dom().contains(c));
            }
        }
    }
}

pub(crate) proof fn lemma_table_view_at(es: Seq<CtxEntry>, k: int)
    requires
        entries_wf(es),
        0 <= k < es.len(),
    ensures
        table_view(es).dom().contains(es[k].context.deep_view()),
        table_view(es)[es[k].context.deep_view()] == followers_view(es[k].followers@),
    decreases es.len(),
{
    if k < es.len() - 1 {
        lemma_table_view_at(es.drop_last(), k);
        assert(es.drop_last()[k] == es[k]);
        assert(es.last().context.deep_view() != es[k].context.deep_view());
    }
}

pub(crate) proof fn lemma_table_view_update(es: Seq<CtxEntry>, k: int, e: CtxEntry)
    requires
        entries_wf(es),
        0 <= k < es.len(),
        e.context.deep_view() == es[k].context.deep_view(),
    ensures
        table_view(es.update(k, e)) == table_view(es).insert(
            e.context.deep_view(),
            followers_view(e.followers@),
        ),
    decreases es.len(),
{
    let upd = es.update(k, e);
    if k == es.len() - 1 {
        assert(upd.drop_last() =~= es.drop_last());
        assert(table_view(es).insert(e.context.deep_view(), followers_view(e.followers@))
            =~= table_view(es.drop_last()).insert(
            e.context.deep_view(),
            followers_view(e.followers@),
        ));
    } else {
        assert(upd.drop_last() =~= es.drop_last().update(k, e));
        assert(upd.last() == es.last());
        lemma_table_view_update(es.drop_last(), k, e);
        assert(es.last().context.deep_view() != e.context.deep_view());
        assert(table_view(es.drop_last()).insert(
            e.context.deep_view(),
            followers_view(e.followers@),
        ).insert(es.last().context.deep_view(), followers_view(es.last().followers@))
            =~= table_view(es.drop_last()).insert(
            es.last().context.deep_view(),
            followers_view(es.last().followers@),
        ).insert(e.context.deep_view(), followers_view(e.followers@)));
    }
}

pub(crate) proof fn lemma_table_view_push(es: Seq<CtxEntry>, e: CtxEntry)
    ensures
        table_view(es.push(e)) == table_view(es).insert(
            e.context.deep_view(),
            followers_view(e.followers@),
        ),
{
    assert(es.push(e).drop_last() =~= es);
    assert(es.push(e).last() == e);
}

} // verus!
