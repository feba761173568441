use vstd::prelude::*;

use crate::model::NodeModel;
use crate::node::{lemma_view_nodes, lemma_view_nodes_push, view_nodes, HtreeNode};
use crate::MAX_CHILDREN;

verus! {

/// The groups, concatenated in order.
pub open spec fn flatten(gs: Seq<Seq<NodeModel>>) -> Seq<NodeModel>
    decreases gs.len(),
{
    if gs.len() == 0 {
        Seq::empty()
    } else {
        flatten(gs.drop_last()) + gs.last()
    }
}

/// Every node has the key of the first.
pub open spec fn all_same_key(g: Seq<NodeModel>) -> bool {
    forall|i: int| 0 <= i < g.len() ==> (#[trigger] g[i]).key == g[0].key
}

/// Keys strictly increase along the sequence.
pub open spec fn strictly_increasing(g: Seq<NodeModel>) -> bool {
    forall|i: int, j: int| 0 <= i < j < g.len() ==> (#[trigger] g[i]).key < (#[trigger] g[j]).key
}

/// Where two neighbouring groups meet on one key, both groups hold only that key.
pub open spec fn boundary_ok(gs: Seq<Seq<NodeModel>>) -> bool {
    forall|t: int|
        0 <= t < gs.len() - 1 && (#[trigger] gs[t]).last().key == gs[t + 1][0].key ==> all_same_key(gs[t])
            && all_same_key(gs[t + 1])
}

/// Every group holds between one and `MAX_CHILDREN` nodes.
pub open spec fn sizes_ok(gs: Seq<Seq<NodeModel>>) -> bool {
    forall|t: int| 0 <= t < gs.len() ==> 0 < (#[trigger] gs[t]).len() <= MAX_CHILDREN
}

/// The models of a sequence of groups.
pub open spec fn groups_view(gs: Seq<Vec<HtreeNode>>) -> Seq<Seq<NodeModel>> {
    Seq::new(gs.len(), |t: int| view_nodes(gs[t]@))
}

pub proof fn lemma_flatten_concat(a: Seq<Seq<NodeModel>>, b: Seq<Seq<NodeModel>>)
    ensures
        flatten(a + b) == flatten(a) + flatten(b),
    decreases b.len(),
{
    if b.len() == 0 {
        assert(a + b =~= a);
        assert(flatten(b) == Seq::<NodeModel>::empty());
        assert(flatten(a) + flatten(b) =~= flatten(a));
    } else {
        lemma_flatten_concat(a, b.drop_last());
        assert((a + b).drop_last() =~= a + b.drop_last());
        assert((a + b).last() == b.last());
        assert(flatten(a + b) =~= flatten(a) + flatten(b));
    }
}

pub proof fn lemma_flatten_single(g: Seq<NodeModel>)
    ensures
        flatten(seq![g]) == g,
{
    assert(seq![g].drop_last() =~= Seq::<Seq<NodeModel>>::empty());
    assert(flatten(Seq::<Seq<NodeModel>>::empty()) == Seq::<NodeModel>::empty());
    assert(Seq::<NodeModel>::empty() + g =~= g);
}

pub proof fn lemma_boundary_concat(a: Seq<Seq<NodeModel>>, b: Seq<Seq<NodeModel>>)
    requires
        boundary_ok(a),
        boundary_ok(b),
        a.len() > 0 && b.len() > 0 ==> a.last().last().key < b[0][0].key,
    ensures
        boundary_ok(a + b),
{
    let c = a + b;
    assert forall|t: int|
        0 <= t < c.len() - 1 && (#[trigger] c[t]).last().key == c[t + 1][0].key implies all_same_key(c[t])
            && all_same_key(c[t + 1]) by {
        if t < a.len() - 1 {
            assert(c[t] == a[t] && c[t + 1] == a[t + 1]);
        } else if t == a.len() - 1 {
            assert(c[t] == a.last() && c[t + 1] == b[0]);
        } else {
            assert(c[t] == b[t - a.len()] && c[t + 1] == b[t + 1 - a.len()]);
        }
    }
}

proof fn lemma_groups_view_push(gs: Seq<Vec<HtreeNode>>, g: Vec<HtreeNode>)
    ensures
        groups_view(gs.push(g)) == groups_view(gs).push(view_nodes(g@)),
{
    assert(groups_view(gs.push(g)) =~= groups_view(gs).push(view_nodes(g@)));
}

proof fn lemma_view_nodes_split(s: Seq<HtreeNode>, at: int)
    requires
        0 <= at <= s.len(),
    ensures
        view_nodes(s.subrange(0, at)) == view_nodes(s).subrange(0, at),
        view_nodes(s.subrange(at, s.len() as int)) == view_nodes(s).subrange(at, s.len() as int),
{
    lemma_view_nodes(s);
    lemma_view_nodes(s.subrange(0, at));
    lemma_view_nodes(s.subrange(at, s.len() as int));
    assert(view_nodes(s.subrange(0, at)) =~= view_nodes(s).subrange(0, at));
    assert(view_nodes(s.subrange(at, s.len() as int)) =~= view_nodes(s).subrange(at, s.len() as int));
}

proof fn lemma_group_count(n: int, m: int, g: int)
    requires
        m > 0,
        n > m,
        g == n / m + (if n % m != 0 { 1int } else { 0 }),
    ensures
        g >= 2,
        n <= g * m,
        n / g < n,
{
    assert(g >= 2 && n <= g * m) by (nonlinear_arith)
        requires
            m > 0, n > m, g == n / m + (if n % m != 0 { 1int } else { 0 }),
    ;
    assert(n / g < n) by (nonlinear_arith)
        requires
            g >= 2, n > 0,
    ;
}

proof fn lemma_chunk_size(n: int, m: int, g: int, s: int)
    requires
        m > 0,
        n > m,
        g >= 1,
        n <= g * m,
        s == n / g + (if n % g != 0 { 1int } else { 0 }),
    ensures
        1 <= s <= m,
{
    assert(s <= m) by (nonlinear_arith)
        requires
            m > 0, g >= 1, n <= g * m, n > 0, s == n / g + (if n % g != 0 { 1int } else { 0 }),
    ;
    assert(s >= 1) by (nonlinear_arith)
        requires
            g >= 1, n > 0, s == n / g + (if n % g != 0 { 1int } else { 0 }),
    ;
}

/// Splits `g` into groups of at most `MAX_CHILDREN` nodes of near-equal sizes: as many
/// groups as `MAX_CHILDREN` requires, each as large as an even split requires.
/// Some group holds more than one node.
pub open spec fn has_big(gs: Seq<Seq<NodeModel>>) -> bool {
    exists|t: int| 0 <= t < gs.len() && (#[trigger] gs[t]).len() >= 2
}

/// Groups of at least one node each, one of them holding more, are fewer than their
/// nodes.
pub proof fn lemma_big_fewer(gs: Seq<Seq<NodeModel>>)
    requires
        sizes_ok(gs),
    ensures
        gs.len() <= flatten(gs).len(),
        has_big(gs) ==> gs.len() < flatten(gs).len(),
    decreases gs.len(),
{
    if gs.len() > 0 {
        let d = gs.drop_last();
        assert forall|t: int| 0 <= t < d.len() implies 0 < (#[trigger] d[t]).len() <= MAX_CHILDREN by {
            assert(d[t] == gs[t]);
        }
        lemma_big_fewer(d);
        assert(flatten(gs) == flatten(d) + gs.last());
        if has_big(gs) && gs.last().len() < 2 {
            let t = choose|t: int| 0 <= t < gs.len() && (#[trigger] gs[t]).len() >= 2;
            assert(t < d.len());
            assert(d[t] == gs[t]);
            assert(has_big(d));
        }
    }
}

/// The size of the groups that `n` children are split into when they are too many for one
/// parent: as even as can be, over the fewest groups of at most `MAX_CHILDREN`.
pub open spec fn even_size(n: nat) -> nat {
    let g = n / (MAX_CHILDREN as nat) + (if n % (MAX_CHILDREN as nat) != 0 { 1nat } else { 0nat });
    n / g + (if n % g != 0 { 1nat } else { 0nat })
}

pub fn combine_group(g: Vec<HtreeNode>) -> (out: Vec<Vec<HtreeNode>>)
    requires
        g@.len() > 0,
        all_same_key(view_nodes(g@)) || strictly_increasing(view_nodes(g@)) || g@.len() <= MAX_CHILDREN,
    ensures
        flatten(groups_view(out@)) == view_nodes(g@),
        sizes_ok(groups_view(out@)),
        boundary_ok(groups_view(out@)),
        out@.len() > 0,
        g@.len() > MAX_CHILDREN ==> forall|t: int| 0 <= t < out@.len() ==> (#[trigger] groups_view(out@)[t]).len() <= even_size(g@.len())
            && (t + 1 < out@.len() ==> groups_view(out@)[t].len() == even_size(g@.len())),
        g@.len() >= 2 ==> has_big(groups_view(out@)),
{
    let ghost gv = view_nodes(g@);
    proof { lemma_view_nodes(g@); }
    let n = g.len();
    let mut out: Vec<Vec<HtreeNode>> = Vec::new();
    if n <= MAX_CHILDREN {
        out.push(g);
        proof {
            lemma_groups_view_push(Seq::empty(), g);
            assert(Seq::<Vec<HtreeNode>>::empty().push(g) =~= out@);
            assert(groups_view(Seq::<Vec<HtreeNode>>::empty()) =~= Seq::<Seq<NodeModel>>::empty());
            assert(groups_view(out@) =~= seq![gv]);
            lemma_flatten_single(gv);
            if gv.len() >= 2 {
                assert(groups_view(out@)[0].len() >= 2);
            }
        }
        return out;
    }
    let num_groups = n / MAX_CHILDREN + if n % MAX_CHILDREN != 0 { 1 } else { 0 };
    proof { lemma_group_count(n as int, MAX_CHILDREN as int, num_groups as int); }
    let size = n / num_groups + if n % num_groups != 0 { 1 } else { 0 };
    proof {
        lemma_chunk_size(n as int, MAX_CHILDREN as int, num_groups as int, size as int);
        assert(size as nat == even_size(n as nat));
        let ni = n as int;
        let gi = num_groups as int;
        assert(gi <= ni / 32 + 1);
        assert(2 * gi <= ni) by (nonlinear_arith)
            requires
                ni >= 33,
                gi <= ni / 32 + 1,
        ;
        assert(ni / gi >= 2) by (nonlinear_arith)
            requires
                2 * gi <= ni,
                gi >= 1,
        ;
        assert(size >= 2);
    }
    let mut rest = g;
    let ghost mut done: int = 0;
    proof {
        assert(groups_view(out@) =~= Seq::<Seq<NodeModel>>::empty());
        assert(view_nodes(rest@) == gv.subrange(0, gv.len() as int)) by {
            assert(gv.subrange(0, gv.len() as int) =~= gv);
        }
    }
    while rest.len() > 0
        invariant
            1 <= size <= MAX_CHILDREN,
            0 <= done <= gv.len(),
            gv.len() == n,
            flatten(groups_view(out@)) == gv.subrange(0, done),
            view_nodes(rest@) == gv.subrange(done, gv.len() as int),
            rest@.len() == gv.len() - done,
            sizes_ok(groups_view(out@)),
            boundary_ok(groups_view(out@)),
            out@.len() > 0 ==> flatten(groups_view(out@)).len() > 0 && groups_view(out@).last().last() == gv[done - 1],
            all_same_key(gv) || strictly_increasing(gv),
            size as nat == even_size(n as nat),
            forall|t: int| 0 <= t < out@.len() ==> (#[trigger] groups_view(out@)[t]).len() <= size
                && (t + 1 < out@.len() || rest@.len() > 0 ==> groups_view(out@)[t].len() == size),
        decreases rest@.len(),
    {
        let take = if rest.len() < size { rest.len() } else { size };
        let ghost before = rest@;
        let tail = rest.split_off(take);
        let chunk = rest;
        rest = tail;
        proof {
            lemma_view_nodes_split(before, take as int);
            assert(chunk@ =~= before.subrange(0, take as int));
            assert(rest@ =~= before.subrange(take as int, before.len() as int));
            let cv = view_nodes(chunk@);
            assert(cv =~= gv.subrange(done, done + take));
            let old_gs = groups_view(out@);
            lemma_view_nodes(chunk@);
            assert(boundary_ok(seq![cv])) by {
                assert(seq![cv].len() == 1);
            }
            if out@.len() > 0 {
                assert(old_gs.last().last() == gv[done - 1]);
                assert(cv[0] == gv[done]);
                if old_gs.last().last().key == cv[0].key {
                    if strictly_increasing(gv) {
                        assert(gv[done - 1].key < gv[done].key);
                    }
                    assert(all_same_key(gv));
                }
            }
            lemma_groups_view_push(out@, chunk);
            assert(old_gs.push(cv) =~= old_gs + seq![cv]);
            lemma_flatten_concat(old_gs, seq![cv]);
            lemma_flatten_single(cv);
            assert(gv.subrange(0, done) + cv =~= gv.subrange(0, done + take));
            let new_gs = old_gs.push(cv);
            assert forall|t: int|
                0 <= t < new_gs.len() - 1 && (#[trigger] new_gs[t]).last().key == new_gs[t + 1][0].key implies all_same_key(new_gs[t])
                    && all_same_key(new_gs[t + 1]) by {
                if t < old_gs.len() - 1 {
                    assert(new_gs[t] == old_gs[t] && new_gs[t + 1] == old_gs[t + 1]);
                } else {
                    assert(new_gs[t] == old_gs.last() && new_gs[t + 1] == cv);
                    assert(old_gs.last().last() == gv[done - 1]);
                    if strictly_increasing(gv) {
                        assert(gv[done - 1].key < gv[done].key);
                    }
                    assert forall|i: int| 0 <= i < cv.len() implies (#[trigger] cv[i]).key == cv[0].key by {
                        assert(cv[i] == gv[done + i] && gv[done + i].key == gv[0].key && gv[done].key == gv[0].key);
                    }
                    assert(flatten(old_gs) == gv.subrange(0, done));
                    assert forall|i: int| 0 <= i < old_gs.last().len() implies (#[trigger] old_gs.last()[i]).key == old_gs.last()[0].key by {
                        lemma_group_in_flatten(old_gs, old_gs.len() - 1, i);
                        lemma_group_in_flatten(old_gs, old_gs.len() - 1, 0);
                    }
                }
            }
            assert(new_gs.last().last() == gv[done + take - 1]);
            done = done + take;
            assert(cv.len() == take);
        }
        let ghost og = groups_view(out@);
        out.push(chunk);
        proof {
            let ng = groups_view(out@);
            assert forall|t: int| 0 <= t < out@.len() implies (#[trigger] groups_view(out@)[t]).len() <= size
                && (t + 1 < out@.len() || rest@.len() > 0 ==> groups_view(out@)[t].len() == size) by {
                if t < og.len() {
                    assert(ng[t] == og[t]);
                } else {
                    assert(ng[t] == view_nodes(chunk@));
                }
            }
        }
    }
    proof {
        assert(gv.subrange(0, done) =~= gv);
        let gs = groups_view(out@);
        if gs.len() >= 2 {
            assert(gs[0].len() == size);
        } else {
            assert(gs.len() == 1);
            lemma_flatten_single(gs[0]);
            assert(gs =~= seq![gs[0]]);
            assert(gs[0].len() == n);
        }
        assert(gs[0].len() >= 2);
    }
    out
}

/// Each node of a group appears in the flattened sequence.
pub proof fn lemma_group_in_flatten(gs: Seq<Seq<NodeModel>>, t: int, i: int)
    requires
        0 <= t < gs.len(),
        0 <= i < gs[t].len(),
    ensures
        exists|k: int| 0 <= k < flatten(gs).len() && flatten(gs)[k] == gs[t][i],
    decreases gs.len(),
{
    let f = flatten(gs);
    let fl = flatten(gs.drop_last());
    if t == gs.len() - 1 {
        assert(f[fl.len() + i] == gs[t][i]);
    } else {
        lemma_group_in_flatten(gs.drop_last(), t, i);
        let k = choose|k: int| 0 <= k < fl.len() && fl[k] == gs.drop_last()[t][i];
        assert(f[k] == fl[k]);
    }
}

} // verus!

verus! {

pub proof fn lemma_flatten_last(gs: Seq<Seq<NodeModel>>)
    requires
        gs.len() > 0,
        sizes_ok(gs),
    ensures
        flatten(gs).len() > 0,
        flatten(gs).last() == gs.last().last(),
{
    assert(gs.last() == gs[gs.len() - 1]);
    assert(flatten(gs) == flatten(gs.drop_last()) + gs.last());
}

/// Moves the groups that `combine_group` makes of `buf` to the end of `groups`.
fn flush(groups: &mut Vec<Vec<HtreeNode>>, buf: Vec<HtreeNode>)
    requires
        buf@.len() > 0,
        all_same_key(view_nodes(buf@)) || strictly_increasing(view_nodes(buf@)) || buf@.len() <= MAX_CHILDREN,
        sizes_ok(groups_view(old(groups)@)),
        boundary_ok(groups_view(old(groups)@)),
        old(groups)@.len() > 0 ==> groups_view(old(groups)@).last().last().key < view_nodes(buf@)[0].key,
    ensures
        flatten(groups_view(final(groups)@)) == flatten(groups_view(old(groups)@)) + view_nodes(buf@),
        sizes_ok(groups_view(final(groups)@)),
        boundary_ok(groups_view(final(groups)@)),
        final(groups)@.len() > 0,
        groups_view(final(groups)@).last().last() == view_nodes(buf@).last(),
        has_big(groups_view(old(groups)@)) || buf@.len() >= 2 ==> has_big(groups_view(final(groups)@)),
{
    let ghost bv = view_nodes(buf@);
    let ghost old_gs = groups_view(groups@);
    let mut out = combine_group(buf);
    let ghost out_gs = groups_view(out@);
    proof {
        lemma_view_nodes(buf@);
        lemma_flatten_last(out_gs);
        assert(out_gs[0] == groups_view(out@)[0]);
        if old_gs.len() > 0 {
            // the first node of the first new group is the first node of `buf`
            lemma_flatten_first(out_gs);
        }
        lemma_boundary_concat(old_gs, out_gs);
        lemma_flatten_concat(old_gs, out_gs);
    }
    let ghost before = groups@;
    groups.append(&mut out);
    proof {
        assert(groups@ =~= before + out_gs_vecs(out_gs, before, groups@));
        assert(groups_view(groups@) =~= old_gs + out_gs);
        assert(sizes_ok(old_gs + out_gs)) by {
            assert forall|t: int| 0 <= t < (old_gs + out_gs).len() implies 0 < #[trigger] (old_gs + out_gs)[t].len() <= MAX_CHILDREN by {
                if t < old_gs.len() {
                    assert((old_gs + out_gs)[t] == old_gs[t]);
                } else {
                    assert((old_gs + out_gs)[t] == out_gs[t - old_gs.len()]);
                }
            }
        }
        assert((old_gs + out_gs).last() == out_gs.last());
        if has_big(old_gs) {
            let t = choose|t: int| 0 <= t < old_gs.len() && (#[trigger] old_gs[t]).len() >= 2;
            assert((old_gs + out_gs)[t] == old_gs[t]);
        } else if bv.len() >= 2 {
            let t = choose|t: int| 0 <= t < out_gs.len() && (#[trigger] out_gs[t]).len() >= 2;
            assert((old_gs + out_gs)[old_gs.len() + t] == out_gs[t]);
        }
    }
}

spec fn out_gs_vecs(out_gs: Seq<Seq<NodeModel>>, before: Seq<Vec<HtreeNode>>, after: Seq<Vec<HtreeNode>>) -> Seq<Vec<HtreeNode>> {
    after.subrange(before.len() as int, after.len() as int)
}

pub proof fn lemma_flatten_first(gs: Seq<Seq<NodeModel>>)
    requires
        gs.len() > 0,
        sizes_ok(gs),
    ensures
        flatten(gs).len() > 0,
        flatten(gs)[0] == gs[0][0],
    decreases gs.len(),
{
    if gs.len() == 1 {
        lemma_flatten_single(gs[0]);
        assert(gs =~= seq![gs[0]]);
    } else {
        let d = gs.drop_last();
        assert forall|t: int| 0 <= t < d.len() implies 0 < (#[trigger] d[t]).len() <= MAX_CHILDREN by {
            assert(d[t] == gs[t]);
        }
        lemma_flatten_first(d);
        assert(flatten(gs) == flatten(d) + gs.last());
    }
}

} // verus!

verus! {

/// The nodes of `v` in reverse order.
fn reversed(v: Vec<HtreeNode>) -> (r: Vec<HtreeNode>)
    ensures
        r@.len() == v@.len(),
        forall|k: int| 0 <= k < r@.len() ==> (#[trigger] r@[k])@ == v@[v@.len() - 1 - k]@,
{
    let mut v = v;
    let ghost orig = v@;
    let mut r: Vec<HtreeNode> = Vec::new();
    while v.len() > 0
        invariant
            v@ == orig.subrange(0, v@.len() as int),
            r@.len() + v@.len() == orig.len(),
            forall|k: int| 0 <= k < r@.len() ==> (#[trigger] r@[k])@ == orig[orig.len() - 1 - k]@,
        decreases v@.len(),
    {
        let ghost before = v@;
        let x = v.pop().unwrap();
        assert(v@ =~= orig.subrange(0, v@.len() as int));
        assert(x == orig[v@.len() as int]);
        r.push(x);
    }
    r
}

/// The state of the grouping after the children `p` (sorted by key) were seen:
/// `gv` are the closed groups and `bv` the run still open.
pub open spec fn group_state(gv: Seq<Seq<NodeModel>>, bv: Seq<NodeModel>, p: Seq<NodeModel>) -> bool {
    &&& flatten(gv) + bv == p
    &&& sizes_ok(gv)
    &&& boundary_ok(gv)
    &&& gv.len() > 0 && bv.len() > 0 ==> gv.last().last().key < bv[0].key
    &&& p.len() > 0 ==> bv.len() > 0
    &&& p.len() == 0 ==> gv.len() == 0 && bv.len() == 0
    &&& bv.len() >= 2 && bv[0].key == bv[1].key ==> all_same_key(bv)
    &&& bv.len() >= 2 && bv[0].key != bv[1].key ==> strictly_increasing(bv)
    &&& p.len() >= 2 ==> bv.len() >= 2 || has_big(gv)
}

/// Adds the next child to the open run, closing runs as the pattern requires.
fn push_child(groups: &mut Vec<Vec<HtreeNode>>, buf: &mut Vec<HtreeNode>, child: HtreeNode, Ghost(p): Ghost<Seq<NodeModel>>)
    requires
        group_state(groups_view(old(groups)@), view_nodes(old(buf)@), p),
        p.len() > 0 ==> p.last().key <= child@.key,
    ensures
        group_state(groups_view(final(groups)@), view_nodes(final(buf)@), p.push(child@)),
{
    let ghost bv = view_nodes(buf@);
    let ghost gv = groups_view(groups@);
    proof {
        lemma_view_nodes(buf@);
        if bv.len() > 0 {
            assert((flatten(gv) + bv)[flatten(gv).len() + bv.len() - 1] == bv.last());
            assert(bv.last() == p.last());
        }
    }
    if buf.len() <= 1 {
        proof { lemma_view_nodes_push(buf@, child); }
        buf.push(child);
        proof {
            let nb = view_nodes(buf@);
            assert(nb =~= bv.push(child@));
            assert(flatten(gv) + nb =~= p.push(child@));
            if nb.len() == 2 && nb[0].key != nb[1].key {
                assert(nb[0].key < nb[1].key);
            }
            if gv.len() > 0 && bv.len() == 0 {
                assert(false);
            }
        }
        return;
    }
    let dup = buf[0].key == buf[1].key;
    let cont = buf[buf.len() - 1].key == child.key;
    proof {
        assert(dup == (bv[0].key == bv[1].key));
        assert(cont == (bv.last().key == child@.key));
    }
    if dup && buf.len() >= MAX_CHILDREN && !cont {
        let mut old_buf: Vec<HtreeNode> = Vec::new();
        std::mem::swap(buf, &mut old_buf);
        flush(groups, old_buf);
        proof { lemma_view_nodes(buf@); lemma_view_nodes_push(buf@, child); }
        buf.push(child);
        proof {
            let nb = view_nodes(buf@);
            assert(nb =~= seq![child@]);
            assert(bv.last().key < child@.key);
            assert(flatten(groups_view(groups@)) + nb =~= p.push(child@));
        }
        return;
    }
    if dup == cont {
        proof { lemma_view_nodes_push(buf@, child); }
        buf.push(child);
        proof {
            let nb = view_nodes(buf@);
            assert(nb =~= bv.push(child@));
            assert(flatten(gv) + nb =~= p.push(child@));
            if dup {
                assert(all_same_key(bv));
                assert(all_same_key(nb));
            } else {
                assert(strictly_increasing(bv));
                assert(bv.last().key < child@.key);
                assert forall|a: int, b: int| 0 <= a < b < nb.len() implies (#[trigger] nb[a]).key < (#[trigger] nb[b]).key by {
                    if b == nb.len() - 1 && a < b {
                        if a < bv.len() - 1 {
                            assert(bv[a].key < bv.last().key);
                        }
                    }
                }
            }
        }
        return;
    }
    if cont {
        // a unique run whose last node starts a duplicate run with `child`
        let held = buf.pop().unwrap();
        proof {
            lemma_view_nodes(buf@);
            assert(strictly_increasing(bv));
            assert(view_nodes(buf@) =~= bv.drop_last());
            assert(held@ == bv.last());
            let pb = view_nodes(buf@);
            assert forall|a: int, b: int| 0 <= a < b < pb.len() implies (#[trigger] pb[a]).key < (#[trigger] pb[b]).key by {
                assert(pb[a] == bv[a] && pb[b] == bv[b]);
            }
            assert(pb[0] == bv[0]);
        }
        let mut old_buf: Vec<HtreeNode> = Vec::new();
        std::mem::swap(buf, &mut old_buf);
        flush(groups, old_buf);
        proof { lemma_view_nodes(buf@); lemma_view_nodes_push(buf@, held); }
        buf.push(held);
        proof { lemma_view_nodes_push(buf@, child); }
        buf.push(child);
        proof {
            let nb = view_nodes(buf@);
            assert(nb =~= seq![bv.last(), child@]);
            assert(bv[bv.len() - 2].key < bv.last().key);
            assert(flatten(groups_view(groups@)) == flatten(gv) + bv.drop_last());
            assert(flatten(groups_view(groups@)) + nb =~= p.push(child@));
        }
        return;
    }
    // a duplicate run followed by a new key
    let mut old_buf: Vec<HtreeNode> = Vec::new();
        std::mem::swap(buf, &mut old_buf);
    flush(groups, old_buf);
    proof { lemma_view_nodes(buf@); lemma_view_nodes_push(buf@, child); }
    buf.push(child);
    proof {
        let nb = view_nodes(buf@);
        assert(nb =~= seq![child@]);
        assert(bv.last().key < child@.key);
        assert(flatten(groups_view(groups@)) + nb =~= p.push(child@));
    }
}

/// Splits children, sorted by key, into groups for parents.
///
/// Consecutive children with the same key form a duplicate run; consecutive children
/// with distinct keys form a unique run. A run is closed when the pattern changes or,
/// for a duplicate run of at least `MAX_CHILDREN` children, when a new key arrives; each
/// closed run is split evenly by `combine_group`. Children with one key therefore never
/// share a group with other keys once the key repeats.
pub fn group_sorted(children: Vec<HtreeNode>) -> (out: Vec<Vec<HtreeNode>>)
    requires
        crate::model::keys_nondecreasing(view_nodes(children@)),
    ensures
        flatten(groups_view(out@)) == view_nodes(children@),
        sizes_ok(groups_view(out@)),
        boundary_ok(groups_view(out@)),
        children@.len() >= 2 ==> has_big(groups_view(out@)),
{
    let ghost s = view_nodes(children@);
    proof { lemma_view_nodes(children@); }
    let n = children.len();
    let mut rev = reversed(children);
    let mut buf: Vec<HtreeNode> = Vec::new();
    let mut groups: Vec<Vec<HtreeNode>> = Vec::new();
    let ghost mut i: int = 0;
    proof {
        lemma_view_nodes(buf@);
        assert(groups_view(groups@) =~= Seq::<Seq<NodeModel>>::empty());
        assert(flatten(groups_view(groups@)) + view_nodes(buf@) =~= s.subrange(0, 0));
    }
    while rev.len() > 0
        invariant
            s.len() == n,
            crate::model::keys_nondecreasing(s),
            0 <= i <= n,
            rev@.len() == n - i,
            forall|k: int| 0 <= k < rev@.len() ==> (#[trigger] rev@[k])@ == s[n - 1 - k],
            group_state(groups_view(groups@), view_nodes(buf@), s.subrange(0, i)),
        decreases rev@.len(),
    {
        let child = rev.pop().unwrap();
        proof {
            assert(child@ == s[i]);
            assert forall|k: int| 0 <= k < rev@.len() implies (#[trigger] rev@[k])@ == s[n - 1 - k] by {
                assert(rev@[k] == old_rev_elem(rev@, k));
            }
            if i > 0 {
                assert(s.subrange(0, i).last() == s[i - 1]);
                assert(s[i - 1].key <= s[i].key);
            }
        }
        push_child(&mut groups, &mut buf, child, Ghost(s.subrange(0, i)));
        proof {
            assert(s.subrange(0, i).push(s[i]) =~= s.subrange(0, i + 1));
            i = i + 1;
        }
    }
    proof {
        assert(s.subrange(0, i) =~= s);
        lemma_view_nodes(buf@);
    }
    if buf.len() > 0 {
        let ghost gv = groups_view(groups@);
        let ghost bv = view_nodes(buf@);
        proof {
            if bv.len() >= 2 && bv[0].key == bv[1].key {
                assert(all_same_key(bv));
            }
        }
        flush(&mut groups, buf);
    } else {
        proof {
            assert(view_nodes(buf@) =~= Seq::<NodeModel>::empty());
            assert(flatten(groups_view(groups@)) + view_nodes(buf@) =~= flatten(groups_view(groups@)));
        }
    }
    groups
}

spec fn old_rev_elem(r: Seq<HtreeNode>, k: int) -> HtreeNode {
    r[k]
}

} // verus!
