//! Library-wide laws: properties of detection and filtering that hold for
//! all inputs, stated and proved against the public contracts.

use vstd::prelude::*;
use crate::strutil::lex_lt;
use crate::strutil::lower_of;
use crate::strutil::lemma_lex_asymm;
use crate::strutil::lemma_lex_irrefl;
use crate::conflicts::GroupModel;
use crate::conflicts::EntryModel;
use crate::conflicts::owners;
use crate::conflicts::conflicting;
use crate::conflicts::detect_post;
use crate::conflicts::distinct_seqs;
use crate::conflicts::lemma_owners_conflict;
use crate::conflicts::lemma_owners_membership;
use crate::scan::file_name_of;
use crate::scan::ext_of;
use crate::scan::kept;

verus! {

/// Groups with pairwise disjoint member sets produce no conflict at all.
pub proof fn lemma_disjoint_no_conflicts(gs: Seq<GroupModel>)
    requires
        forall|i: int, j: int, w: Seq<char>| 0 <= i < j < gs.len() ==> !((#[trigger] gs[
            i
        ].members.contains(w)) && (#[trigger] gs[j].members.contains(w))),
    ensures
        forall|m: Seq<char>| !conflicting(gs, m),
{
    assert forall|m: Seq<char>| !conflicting(gs, m) by {
        lemma_owners_conflict(gs, m);
        if conflicting(gs, m) {
            let (i, j) = choose|i: int, j: int| 0 <= i < j < gs.len()
                && #[trigger] gs[i].members.contains(m) && #[trigger] gs[j].members.contains(m);
        }
    }
}

/// For pairwise disjoint groups, anything the detection contract allows is
/// the empty entry list, so reporting succeeds silently.
pub proof fn lemma_disjoint_detect_empty(gs: Seq<GroupModel>, es: Seq<EntryModel>)
    requires
        forall|i: int, j: int, w: Seq<char>| 0 <= i < j < gs.len() ==> !((#[trigger] gs[
            i
        ].members.contains(w)) && (#[trigger] gs[j].members.contains(w))),
        detect_post(gs, es),
    ensures
        es.len() == 0,
{
    lemma_disjoint_no_conflicts(gs);
    if es.len() > 0 {
        assert(conflicting(gs, es[0].member));
    }
}

/// A member's owner list is exactly the groups that claim it, in supply
/// order: the claimants filtered out of the group list, keeping their names.
pub proof fn lemma_owners_are_claimants(gs: Seq<GroupModel>, m: Seq<char>)
    ensures
        owners(gs, m) == gs.filter(|g: GroupModel| g.members.contains(m)).map_values(
            |g: GroupModel| g.name,
        ),
    decreases gs.len(),
{
    reveal(Seq::filter);
    let pred = |g: GroupModel| g.members.contains(m);
    let name_of = |g: GroupModel| g.name;
    if gs.len() == 0 {
        assert(owners(gs, m) =~= gs.filter(pred).map_values(name_of));
    } else {
        let pre = gs.drop_last();
        lemma_owners_are_claimants(pre, m);
        if pred(gs.last()) {
            assert(gs.filter(pred) == pre.filter(pred).push(gs.last()));
            assert(gs.filter(pred).map_values(name_of) =~= pre.filter(pred).map_values(
                name_of,
            ).push(gs.last().name));
            assert(owners(gs, m) =~= owners(pre, m).push(gs.last().name));
        } else {
            assert(gs.filter(pred) == pre.filter(pred));
            assert(owners(gs, m) =~= owners(pre, m));
        }
    }
}

/// With unique group names, a member's owner list holds no duplicates.
pub proof fn lemma_owners_distinct(gs: Seq<GroupModel>, m: Seq<char>)
    requires
        forall|i: int, j: int| 0 <= i < j < gs.len() ==> gs[i].name != gs[j].name,
    ensures
        distinct_seqs(owners(gs, m)),
    decreases gs.len(),
{
    if gs.len() > 0 {
        let pre = gs.drop_last();
        assert(forall|i: int| 0 <= i < pre.len() ==> pre[i] == gs[i]);
        lemma_owners_distinct(pre, m);
        let os = owners(pre, m);
        if gs.last().members.contains(m) {
            lemma_owners_membership(pre, m, gs.last().name);
            if os.contains(gs.last().name) {
                let i = choose|i: int| 0 <= i < pre.len() && #[trigger] pre[i].name
                    == gs.last().name && pre[i].members.contains(m);
                assert(gs[i].name == gs[gs.len() - 1].name);
                assert(false);
            }
            let ns = os + seq![gs.last().name];
            assert(owners(gs, m) == ns);
            assert forall|i: int, j: int| 0 <= i < j < ns.len() implies ns[i] != ns[j] by {
                if j == ns.len() - 1 {
                    assert(ns[i] == os[i]);
                    assert(os.contains(os[i]));
                }
            }
        } else {
            assert(owners(gs, m) =~= os);
        }
    }
}

/// Two strictly sorted member lists holding the same members coincide.
proof fn lemma_sorted_members_unique(a: Seq<Seq<char>>, b: Seq<Seq<char>>)
    requires
        forall|i: int, j: int| 0 <= i < j < a.len() ==> lex_lt(#[trigger] a[i], #[trigger] a[j]),
        forall|i: int, j: int| 0 <= i < j < b.len() ==> lex_lt(#[trigger] b[i], #[trigger] b[j]),
        forall|m: Seq<char>| #[trigger] a.contains(m) <==> #[trigger] b.contains(m),
    ensures
        a == b,
    decreases a.len(),
{
    if a.len() == 0 && b.len() == 0 {
        assert(a =~= b);
    } else if a.len() == 0 {
        assert(b.contains(b[0]));
        assert(a.contains(b[0]));
        let u = choose|u: int| 0 <= u < a.len() && a[u] == b[0];
        assert(false);
    } else if b.len() == 0 {
        assert(a.contains(a[0]));
        assert(b.contains(a[0]));
        let t = choose|t: int| 0 <= t < b.len() && b[t] == a[0];
        assert(false);
    } else {
        assert(a.contains(a[0]));
        assert(b.contains(b[0]));
        assert(b.contains(a[0]));
        assert(a.contains(b[0]));
        let t = choose|t: int| 0 <= t < b.len() && b[t] == a[0];
        let u = choose|u: int| 0 <= u < a.len() && a[u] == b[0];
        if t > 0 && u > 0 {
            assert(lex_lt(b[0], b[t]));
            assert(lex_lt(a[0], a[u]));
            lemma_lex_asymm(a[0], b[0]);
            assert(false);
        }
        assert(a[0] == b[0]);
        let at = a.drop_first();
        let bt = b.drop_first();
        assert forall|i: int, j: int| 0 <= i < j < at.len() implies lex_lt(
            #[trigger] at[i],
            #[trigger] at[j],
        ) by {
            assert(at[i] == a[i + 1] && at[j] == a[j + 1]);
        }
        assert forall|i: int, j: int| 0 <= i < j < bt.len() implies lex_lt(
            #[trigger] bt[i],
            #[trigger] bt[j],
        ) by {
            assert(bt[i] == b[i + 1] && bt[j] == b[j + 1]);
        }
        assert forall|m: Seq<char>| #[trigger] at.contains(m) <==> #[trigger] bt.contains(
            m,
        ) by {
            if at.contains(m) {
                let i = choose|i: int| 0 <= i < at.len() && at[i] == m;
                assert(a[i + 1] == m);
                assert(a.contains(m));
                assert(b.contains(m));
                assert(lex_lt(a[0], m));
                lemma_lex_irrefl(m);
                let v = choose|v: int| 0 <= v < b.len() && b[v] == m;
                assert(v != 0);
                assert(bt[v - 1] == m);
                assert(bt.contains(m));
            }
            if bt.contains(m) {
                let i = choose|i: int| 0 <= i < bt.len() && bt[i] == m;
                assert(b[i + 1] == m);
                assert(b.contains(m));
                assert(a.contains(m));
                assert(lex_lt(b[0], m));
                lemma_lex_irrefl(m);
                let v = choose|v: int| 0 <= v < a.len() && a[v] == m;
                assert(v != 0);
                assert(at[v - 1] == m);
                assert(at.contains(m));
            }
        }
        lemma_sorted_members_unique(at, bt);
        assert(at.len() == a.len() - 1);
        assert(bt.len() == b.len() - 1);
        assert forall|i: int| 0 <= i < a.len() implies a[i] == b[i] by {
            if i > 0 {
                assert(a[i] == at[i - 1]);
                assert(b[i] == bt[i - 1]);
            }
        }
        assert(a =~= b);
    }
}

/// Detection is deterministic: on one input, any two entry lists that meet
/// the detection contract are identical, entry for entry — same members in
/// the same order, and the same owner list for each.
pub proof fn lemma_detect_deterministic(gs: Seq<GroupModel>, es1: Seq<EntryModel>, es2: Seq<
    EntryModel,
>)
    requires
        detect_post(gs, es1),
        detect_post(gs, es2),
    ensures
        es1 == es2,
{
    let ma = Seq::new(es1.len(), |t: int| es1[t].member);
    let mb = Seq::new(es2.len(), |t: int| es2[t].member);
    assert forall|m: Seq<char>| #[trigger] ma.contains(m) <==> #[trigger] mb.contains(m) by {
        if ma.contains(m) {
            let t = choose|t: int| 0 <= t < ma.len() && ma[t] == m;
            assert(es1[t].member == m);
            assert(conflicting(gs, m));
            let v = choose|v: int| 0 <= v < es2.len() && #[trigger] es2[v].member == m;
            assert(mb[v] == m);
        }
        if mb.contains(m) {
            let t = choose|t: int| 0 <= t < mb.len() && mb[t] == m;
            assert(es2[t].member == m);
            assert(conflicting(gs, m));
            let v = choose|v: int| 0 <= v < es1.len() && #[trigger] es1[v].member == m;
            assert(ma[v] == m);
        }
    }
    lemma_sorted_members_unique(ma, mb);
    assert(ma.len() == mb.len());
    assert(es1.len() == es2.len());
    assert forall|t: int| 0 <= t < es1.len() implies es1[t] == es2[t] by {
        assert(ma[t] == mb[t]);
        assert(es1[t].member == es2[t].member);
        assert(es1[t].groups == owners(gs, es1[t].member));
        assert(es2[t].groups == owners(gs, es2[t].member));
    }
    assert(es1 =~= es2);
}

/// Reordering the input groups changes neither which members conflict nor,
/// for each member, the set of group names that claim it. The reordering is
/// given by the index maps `p` (new position to old) and its inverse `q`.
pub proof fn lemma_permutation_invariance(
    gs1: Seq<GroupModel>,
    gs2: Seq<GroupModel>,
    p: Seq<int>,
    q: Seq<int>,
)
    requires
        gs2.len() == gs1.len(),
        p.len() == gs1.len(),
        q.len() == gs1.len(),
        forall|t: int| 0 <= t < gs1.len() ==> 0 <= #[trigger] p[t] < gs1.len(),
        forall|k: int| 0 <= k < gs1.len() ==> 0 <= #[trigger] q[k] < gs1.len(),
        forall|t: int| 0 <= t < gs1.len() ==> #[trigger] q[p[t]] == t,
        forall|k: int| 0 <= k < gs1.len() ==> #[trigger] p[q[k]] == k,
        forall|t: int| 0 <= t < gs1.len() ==> #[trigger] gs2[t] == gs1[p[t]],
    ensures
        forall|m: Seq<char>| #[trigger] conflicting(gs1, m) <==> conflicting(gs2, m),
        forall|m: Seq<char>, n: Seq<char>| #[trigger] owners(gs1, m).contains(n)
            <==> #[trigger] owners(gs2, m).contains(n),
{
    assert forall|m: Seq<char>| #[trigger] conflicting(gs1, m) <==> conflicting(gs2, m) by {
        lemma_owners_conflict(gs1, m);
        lemma_owners_conflict(gs2, m);
        if conflicting(gs1, m) {
            let (i, j) = choose|i: int, j: int| 0 <= i < j < gs1.len()
                && #[trigger] gs1[i].members.contains(m)
                && #[trigger] gs1[j].members.contains(m);
            let a = q[i];
            let b = q[j];
            assert(p[q[i]] == i && p[q[j]] == j);
            assert(gs2[a] == gs1[i] && gs2[b] == gs1[j]);
            assert(a != b);
            let x = if a < b {
                a
            } else {
                b
            };
            let y = if a < b {
                b
            } else {
                a
            };
            assert(gs2[x].members.contains(m) && gs2[y].members.contains(m) && x < y);
        }
        if conflicting(gs2, m) {
            let (i, j) = choose|i: int, j: int| 0 <= i < j < gs2.len()
                && #[trigger] gs2[i].members.contains(m)
                && #[trigger] gs2[j].members.contains(m);
            let a = p[i];
            let b = p[j];
            assert(q[p[i]] == i && q[p[j]] == j);
            assert(gs1[a] == gs2[i] && gs1[b] == gs2[j]);
            assert(a != b);
            let x = if a < b {
                a
            } else {
                b
            };
            let y = if a < b {
                b
            } else {
                a
            };
            assert(gs1[x].members.contains(m) && gs1[y].members.contains(m) && x < y);
        }
    }
    assert forall|m: Seq<char>, n: Seq<char>| #[trigger] owners(gs1, m).contains(n)
        <==> #[trigger] owners(gs2, m).contains(n) by {
        lemma_owners_membership(gs1, m, n);
        lemma_owners_membership(gs2, m, n);
        if owners(gs1, m).contains(n) {
            let i = choose|i: int| 0 <= i < gs1.len() && #[trigger] gs1[i].name == n
                && gs1[i].members.contains(m);
            assert(gs2[q[i]] == gs1[i]);
        }
        if owners(gs2, m).contains(n) {
            let i = choose|i: int| 0 <= i < gs2.len() && #[trigger] gs2[i].name == n
                && gs2[i].members.contains(m);
            assert(gs1[p[i]] == gs2[i]);
        }
    }
}

/// Extension filtering is case-insensitive: two entries whose extensions
/// agree once case-folded are kept or skipped alike, whatever the ignore
/// list holds.
pub proof fn lemma_filter_case_insensitive(p1: Seq<char>, p2: Seq<char>, igs: Seq<Seq<char>>)
    requires
        ext_of(file_name_of(p1)) is Some,
        ext_of(file_name_of(p2)) is Some,
        lower_of(ext_of(file_name_of(p1))->Some_0) == lower_of(ext_of(file_name_of(p2))->Some_0),
    ensures
        kept(p1, igs) == kept(p2, igs),
{
}

} // verus!