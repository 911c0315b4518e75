//! The conflict index: given an ordered list of named member sets, find every
//! member claimed by two or more groups and report the overlaps.

use vstd::prelude::*;
use vstd::hash_map::StringHashMap;
use vstd::string::StringExecFns;
use crate::strutil::lex_lt;
use crate::strutil::lemma_lex_total;
use crate::strutil::lemma_lex_trans;
use crate::strutil::str_lt;

verus! {

/// A named collection of members. The name is an opaque label used only for
/// reporting; the members are identities (normalized relative paths, or any
/// strings) with set semantics: no duplicates.
#[derive(Debug)]
pub struct Group {
    pub name: String,
    pub members: Vec<String>,
}

/// The mathematical content of a `Group`.
pub ghost struct GroupModel {
    pub name: Seq<char>,
    pub members: Seq<Seq<char>>,
}

impl View for Group {
    type V = GroupModel;

    open spec fn view(&self) -> GroupModel {
        GroupModel { name: self.name@, members: self.members.deep_view() }
    }
}

impl DeepView for Group {
    type V = GroupModel;

    open spec fn deep_view(&self) -> GroupModel {
        self@
    }
}

/// One member claimed by two or more groups, with the names of every group
/// that claims it, in the order the groups were supplied.
#[derive(Debug)]
pub struct ConflictEntry {
    pub member: String,
    pub groups: Vec<String>,
}

/// The mathematical content of a `ConflictEntry`.
pub ghost struct EntryModel {
    pub member: Seq<char>,
    pub groups: Seq<Seq<char>>,
}

impl View for ConflictEntry {
    type V = EntryModel;

    open spec fn view(&self) -> EntryModel {
        EntryModel { member: self.member@, groups: self.groups.deep_view() }
    }
}

impl DeepView for ConflictEntry {
    type V = EntryModel;

    open spec fn deep_view(&self) -> EntryModel {
        self@
    }
}

/// The names of the groups that claim `m`, in the order the groups appear.
pub open spec fn owners(gs: Seq<GroupModel>, m: Seq<char>) -> Seq<Seq<char>>
    decreases gs.len(),
{
    if gs.len() == 0 {
        Seq::empty()
    } else {
        owners(gs.drop_last(), m) + (if gs.last().members.contains(m) {
            seq![gs.last().name]
        } else {
            Seq::<Seq<char>>::empty()
        })
    }
}

/// Whether `m` is claimed by two or more of the groups.
pub open spec fn conflicting(gs: Seq<GroupModel>, m: Seq<char>) -> bool {
    owners(gs, m).len() >= 2
}

/// No two elements of `s` are equal.
pub open spec fn distinct_seqs(s: Seq<Seq<char>>) -> bool {
    forall|i: int, j: int| 0 <= i < j < s.len() ==> s[i] != s[j]
}

/// Well-formed input for a detection call: group names are unique, and each
/// group's members form a set (no duplicates).
pub open spec fn groups_wf(gs: Seq<GroupModel>) -> bool {
    &&& forall|i: int, j: int| 0 <= i < j < gs.len() ==> gs[i].name != gs[j].name
    &&& forall|i: int| 0 <= i < gs.len() ==> distinct_seqs(gs[i].members)
}

/// Entries stand in strictly increasing lexicographic order of their members.
pub open spec fn entries_sorted(es: Seq<EntryModel>) -> bool {
    forall|i: int, j: int| 0 <= i < j < es.len() ==> lex_lt(es[i].member, es[j].member)
}

/// What `detect` promises of its result: entries are member-sorted, each entry
/// lists exactly the owners of a member claimed at least twice, and every such
/// member has an entry.
pub open spec fn detect_post(gs: Seq<GroupModel>, es: Seq<EntryModel>) -> bool {
    &&& entries_sorted(es)
    &&& forall|t: int| 0 <= t < es.len() ==> conflicting(gs, #[trigger] es[t].member)
        && es[t].groups == owners(gs, es[t].member)
    &&& forall|m: Seq<char>| conflicting(gs, m) ==> exists|t: int|
        0 <= t < es.len() && #[trigger] es[t].member == m
}

/// Appending a group appends its name to the owner list of each of its
/// members and leaves every other owner list unchanged.
pub proof fn lemma_owners_push(gs: Seq<GroupModel>, g: GroupModel, m: Seq<char>)
    ensures
        owners(gs.push(g), m) == owners(gs, m) + (if g.members.contains(m) {
            seq![g.name]
        } else {
            Seq::<Seq<char>>::empty()
        }),
{
    assert(gs.push(g).len() == gs.len() + 1);
    assert(gs.push(g).drop_last() =~= gs);
    assert(gs.push(g).last() == g);
}

/// A member has at least one owner exactly when some group claims it.
pub proof fn lemma_owners_nonempty(gs: Seq<GroupModel>, m: Seq<char>)
    ensures
        owners(gs, m).len() >= 1 <==> exists|i: int|
            0 <= i < gs.len() && #[trigger] gs[i].members.contains(m),
    decreases gs.len(),
{
    if gs.len() > 0 {
        let pre = gs.drop_last();
        lemma_owners_nonempty(pre, m);
        assert(forall|i: int| 0 <= i < pre.len() ==> pre[i] == gs[i]);
        if gs.last().members.contains(m) {
            assert(gs[gs.len() - 1].members.contains(m));
        } else {
            if exists|i: int| 0 <= i < gs.len() && #[trigger] gs[i].members.contains(m) {
                let i = choose|i: int| 0 <= i < gs.len() && #[trigger] gs[i].members.contains(m);
                assert(i < gs.len() - 1);
                assert(pre[i].members.contains(m));
            }
        }
    }
}

/// A member has at least two owners exactly when two distinct groups claim it.
pub proof fn lemma_owners_conflict(gs: Seq<GroupModel>, m: Seq<char>)
    ensures
        conflicting(gs, m) <==> exists|i: int, j: int|
            0 <= i < j < gs.len() && #[trigger] gs[i].members.contains(m)
                && #[trigger] gs[j].members.contains(m),
    decreases gs.len(),
{
    if gs.len() > 0 {
        let pre = gs.drop_last();
        lemma_owners_conflict(pre, m);
        lemma_owners_nonempty(pre, m);
        assert(forall|i: int| 0 <= i < pre.len() ==> pre[i] == gs[i]);
        if gs.last().members.contains(m) {
            assert(gs[gs.len() - 1].members.contains(m));
            if owners(pre, m).len() >= 1 {
                let i = choose|i: int| 0 <= i < pre.len() && #[trigger] pre[i].members.contains(m);
                assert(gs[i].members.contains(m));
            }
            if exists|i: int, j: int| 0 <= i < j < gs.len()
                && #[trigger] gs[i].members.contains(m) && #[trigger] gs[j].members.contains(m) {
                let (i, j) = choose|i: int, j: int| 0 <= i < j < gs.len()
                    && #[trigger] gs[i].members.contains(m) && #[trigger] gs[j].members.contains(m);
                if conflicting(gs, m) {
                } else {
                    assert(owners(pre, m).len() >= 1 ==> conflicting(gs, m));
                    assert(pre[i].members.contains(m));
                }
            }
        } else {
            if exists|i: int, j: int| 0 <= i < j < gs.len()
                && #[trigger] gs[i].members.contains(m) && #[trigger] gs[j].members.contains(m) {
                let (i, j) = choose|i: int, j: int| 0 <= i < j < gs.len()
                    && #[trigger] gs[i].members.contains(m) && #[trigger] gs[j].members.contains(m);
                assert(j < gs.len() - 1);
                assert(pre[i].members.contains(m) && pre[j].members.contains(m));
            }
        }
    }
}

/// A name stands in a member's owner list exactly when a group of that name
/// claims the member.
pub proof fn lemma_owners_membership(gs: Seq<GroupModel>, m: Seq<char>, n: Seq<char>)
    ensures
        owners(gs, m).contains(n) <==> exists|i: int|
            0 <= i < gs.len() && #[trigger] gs[i].name == n && gs[i].members.contains(m),
    decreases gs.len(),
{
    if gs.len() > 0 {
        let pre = gs.drop_last();
        lemma_owners_membership(pre, m, n);
        assert(forall|i: int| 0 <= i < pre.len() ==> pre[i] == gs[i]);
        let tail: Seq<Seq<char>> = if gs.last().members.contains(m) {
            seq![gs.last().name]
        } else {
            Seq::<Seq<char>>::empty()
        };
        assert(owners(gs, m) == owners(pre, m) + tail);
        if owners(gs, m).contains(n) {
            let t = choose|t: int| 0 <= t < owners(gs, m).len() && owners(gs, m)[t] == n;
            if t < owners(pre, m).len() {
                assert(owners(pre, m)[t] == n);
                assert(owners(pre, m).contains(n));
                let i = choose|i: int| 0 <= i < pre.len() && #[trigger] pre[i].name == n
                    && pre[i].members.contains(m);
                assert(gs[i].name == n && gs[i].members.contains(m));
            } else {
                assert(gs.last().members.contains(m) && gs.last().name == n);
                assert(gs[gs.len() - 1].name == n && gs[gs.len() - 1].members.contains(m));
            }
        }
        if exists|i: int| 0 <= i < gs.len() && #[trigger] gs[i].name == n
            && gs[i].members.contains(m) {
            let i = choose|i: int| 0 <= i < gs.len() && #[trigger] gs[i].name == n
                && gs[i].members.contains(m);
            if i < gs.len() - 1 {
                assert(pre[i].name == n && pre[i].members.contains(m));
                assert(owners(pre, m).contains(n));
                let t = choose|t: int| 0 <= t < owners(pre, m).len() && owners(pre, m)[t] == n;
                assert(owners(gs, m)[t] == n);
            } else {
                assert(gs.last().members.contains(m));
                assert(owners(gs, m)[owners(gs, m).len() - 1] == n);
            }
        }
    }
}

/// `s.take(k + 1)` holds `m` exactly when `s.take(k)` does or `s[k] == m`.
proof fn lemma_take_push_contains(s: Seq<Seq<char>>, k: int, m: Seq<char>)
    requires
        0 <= k < s.len(),
    ensures
        s.take(k + 1).contains(m) <==> (s.take(k).contains(m) || s[k] == m),
{
    assert(s.take(k + 1) =~= s.take(k).push(s[k]));
    if s.take(k).contains(m) {
        let i = choose|i: int| 0 <= i < s.take(k).len() && s.take(k)[i] == m;
        assert(s.take(k + 1)[i] == m);
    }
    if s[k] == m {
        assert(s.take(k + 1)[k] == m);
    }
    if s.take(k + 1).contains(m) {
        let i = choose|i: int| 0 <= i < s.take(k + 1).len() && #[trigger] s.take(k + 1)[i] == m;
        if i < k {
            assert(s.take(k)[i] == m);
        }
    }
}

/// The group `g` cut down to its first `k` members.
spec fn partial_group(g: GroupModel, k: int) -> GroupModel {
    GroupModel { name: g.name, members: g.members.take(k) }
}

/// The invariant of the index-building pass: `es` holds one entry per member
/// seen in the processed groups `ps`, with its owner list so far, and `idx`
/// maps each seen member to its entry's position.
spec fn phase1_inv(ps: Seq<GroupModel>, es: Seq<EntryModel>, idx: Map<Seq<char>, usize>) -> bool {
    &&& forall|t1: int, t2: int| 0 <= t1 < t2 < es.len()
        ==> (#[trigger] es[t1]).member != (#[trigger] es[t2]).member
    &&& forall|t: int| 0 <= t < es.len() ==> idx.contains_key((#[trigger] es[t]).member)
        && idx[es[t].member] as int == t
    &&& forall|m: Seq<char>| #[trigger] idx.contains_key(m) ==> 0 <= idx[m] < es.len()
        && es[idx[m] as int].member == m
    &&& forall|t: int| 0 <= t < es.len() ==> (#[trigger] es[t]).groups == owners(ps, es[t].member)
        && es[t].groups.len() >= 1
    &&& forall|m: Seq<char>| #[trigger] owners(ps, m).len() >= 1 ==> idx.contains_key(m)
}

/// The invariant transfers between processed prefixes with the same owner
/// lists.
proof fn lemma_inv_transfer(
    ps1: Seq<GroupModel>,
    ps2: Seq<GroupModel>,
    es: Seq<EntryModel>,
    idx: Map<Seq<char>, usize>,
)
    requires
        phase1_inv(ps1, es, idx),
        forall|m: Seq<char>| #[trigger] owners(ps2, m) == owners(ps1, m),
    ensures
        phase1_inv(ps2, es, idx),
{
}

/// The position in `out` where an entry for `m` belongs.
fn lower_bound(out: &Vec<ConflictEntry>, m: &str) -> (k: usize)
    ensures
        k <= out@.len(),
        forall|t: int| 0 <= t < k ==> lex_lt((#[trigger] out.deep_view()[t]).member, m@),
        k < out@.len() ==> !lex_lt(out.deep_view()[k as int].member, m@),
{
    let mut k: usize = 0;
    while k < out.len()
        invariant
            k <= out@.len(),
            forall|t: int| 0 <= t < k ==> lex_lt((#[trigger] out.deep_view()[t]).member, m@),
        decreases out@.len() - k,
    {
        if !str_lt(out[k].member.as_str(), m) {
            return k;
        }
        k += 1;
    }
    k
}

/// Inserts `e` into the member-sorted list `out`, keeping it sorted.
fn insert_sorted(out: &mut Vec<ConflictEntry>, e: ConflictEntry)
    requires
        entries_sorted(old(out).deep_view()),
        forall|t: int| 0 <= t < old(out)@.len()
            ==> (#[trigger] old(out).deep_view()[t]).member != e@.member,
    ensures
        final(out)@.len() == old(out)@.len() + 1,
        entries_sorted(final(out).deep_view()),
        forall|em: EntryModel| final(out).deep_view().contains(em)
            <==> (old(out).deep_view().contains(em) || em == e@),
{
    let ghost odv = out.deep_view();
    let k = lower_bound(out, e.member.as_str());
    proof {
        assert forall|t: int| k <= t < odv.len() implies lex_lt(e@.member, odv[t].member) by {
            lemma_lex_total(e@.member, odv[k as int].member);
            if t > k {
                lemma_lex_trans(e@.member, odv[k as int].member, odv[t].member);
            }
        }
    }
    out.insert(k, e);
    proof {
        let ndv = out.deep_view();
        assert(out@ == old(out)@.insert(k as int, e));
        assert forall|i: int| 0 <= i < ndv.len() implies ndv[i] == (if i < k {
            odv[i]
        } else if i == k {
            e@
        } else {
            odv[i - 1]
        }) by {
            assert(out@[i] == (if i < k {
                old(out)@[i]
            } else if i == k {
                e
            } else {
                old(out)@[i - 1]
            }));
        }
        assert forall|i: int, j: int| 0 <= i < j < ndv.len() implies lex_lt(
            ndv[i].member,
            ndv[j].member,
        ) by {
            if i < k && j > k {
                lemma_lex_trans(odv[i].member, e@.member, odv[j - 1].member);
            }
        }
        assert forall|em: EntryModel| ndv.contains(em) <==> (odv.contains(em) || em == e@) by {
            if ndv.contains(em) {
                let i = choose|i: int| 0 <= i < ndv.len() && ndv[i] == em;
                if i < k {
                    assert(odv[i] == em);
                } else if i > k {
                    assert(odv[i - 1] == em);
                }
            }
            if odv.contains(em) {
                let i = choose|i: int| 0 <= i < odv.len() && odv[i] == em;
                if i < k {
                    assert(ndv[i] == em);
                } else {
                    assert(ndv[i + 1] == em);
                }
            }
            if em == e@ {
                assert(ndv[k as int] == em);
            }
        }
    }
}

/// Whether no group name occurs twice.
pub fn distinct_names(groups: &Vec<Group>) -> (r: bool)
    ensures
        r == (forall|i: int, j: int| 0 <= i < j < groups.deep_view().len()
            ==> (#[trigger] groups.deep_view()[i]).name != (#[trigger] groups.deep_view()[j]).name),
{
    let ghost gs = groups.deep_view();
    let mut i: usize = 0;
    while i < groups.len()
        invariant
            gs == groups.deep_view(),
            i <= gs.len(),
            gs.len() == groups@.len(),
            forall|a: int, b: int| 0 <= a < b < i
                ==> (#[trigger] gs[a]).name != (#[trigger] gs[b]).name,
        decreases groups@.len() - i,
    {
        let mut j: usize = 0;
        while j < i
            invariant
                gs == groups.deep_view(),
                j <= i < gs.len(),
                gs.len() == groups@.len(),
                forall|b: int| 0 <= b < j ==> (#[trigger] gs[b]).name != gs[i as int].name,
            decreases i - j,
        {
            if crate::strutil::str_eq(groups[j].name.as_str(), groups[i].name.as_str()) {
                proof {
                    assert(gs[j as int].name == gs[i as int].name);
                }
                return false;
            }
            j += 1;
        }
        i += 1;
    }
    true
}

/// Builds the reverse index over all groups in a single pass and returns the
/// conflicting members in lexicographic order, each with the names of every
/// group that claims it, in the order the groups were supplied.
pub fn detect(groups: &Vec<Group>) -> (r: Vec<ConflictEntry>)
    requires
        groups_wf(groups.deep_view()),
    ensures
        detect_post(groups.deep_view(), r.deep_view()),
{
    let ghost gs = groups.deep_view();
    let mut index: StringHashMap<usize> = StringHashMap::new();
    let mut acc: Vec<ConflictEntry> = Vec::new();
    let mut gi: usize = 0;
    proof {
        assert(gs.take(0) =~= Seq::<GroupModel>::empty());
        assert forall|m: Seq<char>| #[trigger] owners(gs.take(0), m).len() >= 1 implies
            index@.contains_key(m) by {}
    }
    while gi < groups.len()
        invariant
            gs == groups.deep_view(),
            groups_wf(gs),
            gi <= gs.len(),
            gs.len() == groups@.len(),
            phase1_inv(gs.take(gi as int), acc.deep_view(), index@),
        decreases groups@.len() - gi,
    {
        let ghost g = gs[gi as int];
        let ghost done = gs.take(gi as int);
        let mut mi: usize = 0;
        proof {
            assert forall|m: Seq<char>| #[trigger] owners(done.push(partial_group(g, 0)), m)
                == owners(done, m) by {
                lemma_owners_push(done, partial_group(g, 0), m);
                assert(!partial_group(g, 0).members.contains(m));
                assert(owners(done, m) + Seq::<Seq<char>>::empty() =~= owners(done, m));
            }
            lemma_inv_transfer(done, done.push(partial_group(g, 0)), acc.deep_view(), index@);
        }
        while mi < groups[gi].members.len()
            invariant
                gs == groups.deep_view(),
                groups_wf(gs),
                gi < gs.len(),
                gs.len() == groups@.len(),
                g == gs[gi as int],
                done == gs.take(gi as int),
                mi <= g.members.len(),
                g.members.len() == groups@[gi as int].members@.len(),
                phase1_inv(done.push(partial_group(g, mi as int)), acc.deep_view(), index@),
            decreases g.members.len() - mi,
        {
            let m: &String = &groups[gi].members[mi];
            proof {
                assert(m@ == g.members[mi as int]);
                assert(distinct_seqs(g.members));
                assert(!g.members.take(mi as int).contains(g.members[mi as int])) by {
                    if g.members.take(mi as int).contains(g.members[mi as int]) {
                        let t = choose|t: int| 0 <= t < mi && g.members.take(mi as int)[t]
                            == g.members[mi as int];
                        assert(g.members[t] == g.members[mi as int]);
                    }
                }
                lemma_take_push_contains(g.members, mi as int, m@);
                assert forall|w: Seq<char>| w != m@ implies #[trigger] owners(
                    done.push(partial_group(g, mi as int + 1)),
                    w,
                ) == owners(done.push(partial_group(g, mi as int)), w) by {
                    lemma_owners_push(done, partial_group(g, mi as int + 1), w);
                    lemma_owners_push(done, partial_group(g, mi as int), w);
                    lemma_take_push_contains(g.members, mi as int, w);
                }
                lemma_owners_push(done, partial_group(g, mi as int + 1), m@);
                lemma_owners_push(done, partial_group(g, mi as int), m@);
                assert(partial_group(g, mi as int + 1).members.contains(m@));
                assert(!partial_group(g, mi as int).members.contains(m@));
                assert(owners(done.push(partial_group(g, mi as int)), m@)
                    =~= owners(done, m@));
                assert(owners(done.push(partial_group(g, mi as int + 1)), m@)
                    =~= owners(done, m@).push(g.name));
            }
            let ghost pp = done.push(partial_group(g, mi as int));
            let ghost pn = done.push(partial_group(g, mi as int + 1));
            let ghost old_acc = acc.deep_view();
            match index.get(m.as_str()) {
                Some(ir) => {
                    let idx: usize = *ir;
                    let ghost acc0 = acc@;
                    let ghost old_index = index@;
                    let mut e = acc.swap_remove(idx);
                    let ghost eg0 = e.groups@;
                    e.groups.push(groups[gi].name.clone());
                    let ghost enew = e;
                    if idx < acc.len() {
                        index.insert(acc[idx].member.clone(), idx);
                    }
                    let ghost mid_index = index@;
                    index.insert(e.member.clone(), acc.len());
                    acc.push(e);
                    proof {
                        let lpos = acc0.len() - 1;
                        let moved = idx < lpos;
                        assert(groups@[gi as int].name@ == g.name);
                        assert(eg0 == acc0[idx as int].groups@);
                        assert(enew.groups@ == eg0.push(groups@[gi as int].name));
                        assert(enew@.groups =~= old_acc[idx as int].groups.push(g.name));
                        assert(enew@.member == old_acc[idx as int].member);
                        assert(old_acc[idx as int].member == m@);
                        assert(old_acc[idx as int].groups == owners(pp, m@));
                        assert(owners(pp, m@).push(g.name) =~= owners(pn, m@));
                        if moved {
                            assert(mid_index == old_index.insert(old_acc[lpos].member, idx));
                            assert(old_acc[lpos].member != m@);
                        } else {
                            assert(mid_index == old_index);
                            assert(idx as int == lpos);
                        }
                        assert(index@ == mid_index.insert(m@, lpos as usize));
                        assert(acc@.len() == acc0.len());
                        assert forall|t: int| 0 <= t < acc@.len() implies #[trigger] acc@[t]
                            == (if t == lpos {
                            enew
                        } else if t == idx as int {
                            acc0[lpos]
                        } else {
                            acc0[t]
                        }) by {}
                        let ndv = acc.deep_view();
                        assert(ndv.len() == old_acc.len());
                        assert forall|t: int| 0 <= t < ndv.len() implies #[trigger] ndv[t]
                            == (if t == lpos {
                            EntryModel {
                                member: old_acc[idx as int].member,
                                groups: old_acc[idx as int].groups.push(g.name),
                            }
                        } else if t == idx as int {
                            old_acc[lpos]
                        } else {
                            old_acc[t]
                        }) by {
                            assert(ndv[t] == acc@[t]@);
                            if t == idx as int && t != lpos {
                                assert(old_acc[lpos] == acc0[lpos]@);
                            } else if t != lpos {
                                assert(acc@[t] == acc0[t]);
                                assert(old_acc[t] == acc0[t]@);
                            }
                        }
                        assert(phase1_inv(pn, ndv, index@)) by {
                            assert forall|t1: int, t2: int| 0 <= t1 < t2 < ndv.len() implies
                                (#[trigger] ndv[t1]).member != (#[trigger] ndv[t2]).member by {
                                let s1: int = if t1 == lpos {
                                    idx as int
                                } else if t1 == idx as int {
                                    lpos
                                } else {
                                    t1
                                };
                                let s2: int = if t2 == lpos {
                                    idx as int
                                } else if t2 == idx as int {
                                    lpos
                                } else {
                                    t2
                                };
                                assert(ndv[t1].member == old_acc[s1].member);
                                assert(ndv[t2].member == old_acc[s2].member);
                                if s1 < s2 {
                                    assert(old_acc[s1].member != old_acc[s2].member);
                                } else {
                                    assert(old_acc[s2].member != old_acc[s1].member);
                                }
                            }
                            assert forall|t: int| 0 <= t < ndv.len() implies index@.contains_key(
                                (#[trigger] ndv[t]).member,
                            ) && index@[ndv[t].member] as int == t by {
                                if t == lpos {
                                    assert(ndv[t].member == m@);
                                } else if t == idx as int {
                                    assert(ndv[t].member == old_acc[lpos].member);
                                } else {
                                    assert(ndv[t].member == old_acc[t].member);
                                    assert(old_acc[t].member != m@);
                                    if moved {
                                        assert(old_acc[t].member != old_acc[lpos].member);
                                    }
                                    assert(old_index.contains_key(old_acc[t].member)
                                        && old_index[old_acc[t].member] as int == t);
                                }
                            }
                            assert forall|w: Seq<char>| #[trigger] index@.contains_key(w)
                                implies 0 <= index@[w] < ndv.len()
                                && ndv[index@[w] as int].member == w by {
                                if w == m@ {
                                    assert(ndv[lpos].member == m@);
                                } else if moved && w == old_acc[lpos].member {
                                    assert(ndv[idx as int].member == w);
                                } else {
                                    assert(old_index.contains_key(w));
                                    let t = old_index[w] as int;
                                    assert(old_acc[t].member == w);
                                    assert(t != idx as int);
                                    assert(t != lpos);
                                    assert(ndv[t] == old_acc[t]);
                                }
                            }
                            assert forall|t: int| 0 <= t < ndv.len() implies (#[trigger] ndv[t]).groups
                                == owners(pn, ndv[t].member) && ndv[t].groups.len() >= 1 by {
                                if t == lpos {
                                    assert(ndv[t].groups =~= owners(pn, m@));
                                } else {
                                    let s: int = if t == idx as int {
                                        lpos
                                    } else {
                                        t
                                    };
                                    assert(ndv[t] == old_acc[s]);
                                    assert(old_acc[s].member != m@);
                                    assert(owners(pn, old_acc[s].member)
                                        == owners(pp, old_acc[s].member));
                                }
                            }
                            assert forall|w: Seq<char>| #[trigger] owners(pn, w).len() >= 1
                                implies index@.contains_key(w) by {
                                if w != m@ {
                                    assert(owners(pp, w) == owners(pn, w));
                                    assert(old_index.contains_key(w));
                                }
                            }
                        }
                    }
                }
                None => {
                    let ghost pos = acc@.len();
                    let ghost old_index = index@;
                    proof {
                        assert(owners(pp, m@).len() == 0) by {
                            if owners(pp, m@).len() >= 1 {
                                assert(old_index.contains_key(m@));
                            }
                        }
                        assert(owners(pn, m@) =~= seq![g.name]);
                    }
                    index.insert(m.clone(), acc.len());
                    let mut glist: Vec<String> = Vec::new();
                    glist.push(groups[gi].name.clone());
                    acc.push(ConflictEntry { member: m.clone(), groups: glist });
                    proof {
                        assert(groups@[gi as int].name@ == g.name);
                        let ndv = acc.deep_view();
                        assert(ndv.len() == old_acc.len() + 1);
                        assert forall|t: int| 0 <= t < old_acc.len() implies ndv[t]
                            == old_acc[t] by {}
                        assert(ndv[pos as int].member == m@);
                        assert(ndv[pos as int].groups =~= seq![g.name]);
                        assert(index@ == old_index.insert(m@, pos as usize));
                        assert(phase1_inv(pn, ndv, index@)) by {
                            assert forall|w: Seq<char>| #[trigger] owners(pn, w).len() >= 1
                                implies index@.contains_key(w) by {
                                if w != m@ {
                                    assert(owners(pp, w) == owners(pn, w));
                                }
                            }
                            assert forall|t1: int, t2: int| 0 <= t1 < t2 < ndv.len() implies
                                (#[trigger] ndv[t1]).member != (#[trigger] ndv[t2]).member by {
                                if t2 == pos {
                                    assert(old_index.contains_key(old_acc[t1].member));
                                }
                            }
                        }
                    }
                }
            }
            mi += 1;
        }
        proof {
            assert(g.members.take(g.members.len() as int) =~= g.members);
            assert(partial_group(g, mi as int) == g);
            assert(gs.take(gi as int + 1) =~= done.push(g));
        }
        gi += 1;
    }
    proof {
        assert(gs.take(gs.len() as int) =~= gs);
    }
    let mut out: Vec<ConflictEntry> = Vec::new();
    while acc.len() > 0
        invariant
            gs == groups.deep_view(),
            forall|t: int| 0 <= t < acc.deep_view().len()
                ==> (#[trigger] acc.deep_view()[t]).groups
                    == owners(gs, acc.deep_view()[t].member),
            forall|t1: int, t2: int| 0 <= t1 < t2 < acc.deep_view().len()
                ==> (#[trigger] acc.deep_view()[t1]).member
                    != (#[trigger] acc.deep_view()[t2]).member,
            entries_sorted(out.deep_view()),
            forall|t: int| 0 <= t < out.deep_view().len() ==> conflicting(
                gs,
                (#[trigger] out.deep_view()[t]).member,
            ) && out.deep_view()[t].groups == owners(gs, out.deep_view()[t].member),
            forall|ta: int, to: int| 0 <= ta < acc.deep_view().len() && 0 <= to
                < out.deep_view().len() ==> (#[trigger] acc.deep_view()[ta]).member
                != (#[trigger] out.deep_view()[to]).member,
            forall|m: Seq<char>| conflicting(gs, m) ==> (exists|t: int|
                0 <= t < acc.deep_view().len() && (#[trigger] acc.deep_view()[t]).member == m)
                || (exists|t: int| 0 <= t < out.deep_view().len()
                    && (#[trigger] out.deep_view()[t]).member == m),
        decreases acc@.len(),
    {
        let ghost oa = acc@;
        let ghost oad = acc.deep_view();
        let ghost ood = out.deep_view();
        let e = acc.pop().unwrap();
        proof {
            assert(e == oa[oa.len() - 1]);
            assert(e@ == oad[oad.len() - 1]);
            assert(acc.deep_view().len() == oad.len() - 1);
            assert forall|t: int| 0 <= t < acc.deep_view().len() implies #[trigger] acc.deep_view()[t]
                == oad[t] by {
                assert(acc@[t] == oa[t]);
            }
            assert forall|t: int| 0 <= t < acc.deep_view().len() implies (#[trigger] acc.deep_view()[t]).groups
                == owners(gs, acc.deep_view()[t].member) by {
                assert(acc.deep_view()[t] == oad[t]);
            }
            assert forall|t1: int, t2: int| 0 <= t1 < t2 < acc.deep_view().len() implies
                (#[trigger] acc.deep_view()[t1]).member
                != (#[trigger] acc.deep_view()[t2]).member by {
                assert(acc.deep_view()[t1] == oad[t1]);
                assert(acc.deep_view()[t2] == oad[t2]);
            }
        }
        if e.groups.len() >= 2 {
            proof {
                assert(e@.groups.len() >= 2);
                assert(conflicting(gs, e@.member));
            }
            insert_sorted(&mut out, e);
            proof {
                let nod = out.deep_view();
                assert forall|t: int| 0 <= t < nod.len() implies conflicting(
                    gs,
                    (#[trigger] nod[t]).member,
                ) && nod[t].groups == owners(gs, nod[t].member) by {
                    assert(nod.contains(nod[t]));
                    if nod[t] == e@ {
                    } else {
                        assert(ood.contains(nod[t]));
                        let i = choose|i: int| 0 <= i < ood.len() && ood[i] == nod[t];
                    }
                }
                assert forall|ta: int, to: int| 0 <= ta < acc.deep_view().len() && 0 <= to
                    < nod.len() implies (#[trigger] acc.deep_view()[ta]).member
                    != (#[trigger] nod[to]).member by {
                    assert(nod.contains(nod[to]));
                    if nod[to] == e@ {
                        assert(acc.deep_view()[ta] == oad[ta]);
                        assert(oad[ta].member != oad[oad.len() - 1].member);
                    } else {
                        assert(ood.contains(nod[to]));
                        let i = choose|i: int| 0 <= i < ood.len() && ood[i] == nod[to];
                    }
                }
                assert forall|m: Seq<char>| conflicting(gs, m) implies (exists|t: int|
                    0 <= t < acc.deep_view().len() && (#[trigger] acc.deep_view()[t]).member
                        == m) || (exists|t: int| 0 <= t < nod.len()
                        && (#[trigger] nod[t]).member == m) by {
                    if exists|t: int| 0 <= t < oad.len() && (#[trigger] oad[t]).member == m {
                        let t = choose|t: int| 0 <= t < oad.len()
                            && (#[trigger] oad[t]).member == m;
                        if t == oad.len() - 1 {
                            assert(nod.contains(e@));
                            let i = choose|i: int| 0 <= i < nod.len() && nod[i] == e@;
                            assert(nod[i].member == m);
                        } else {
                            assert(acc.deep_view()[t].member == m);
                        }
                    } else {
                        let t = choose|t: int| 0 <= t < ood.len()
                            && (#[trigger] ood[t]).member == m;
                        assert(nod.contains(ood[t]));
                        let i = choose|i: int| 0 <= i < nod.len() && nod[i] == ood[t];
                        assert(nod[i].member == m);
                    }
                }
            }
        } else {
            proof {
                assert(e@.groups == owners(gs, e@.member));
                assert(owners(gs, e@.member).len() < 2);
                assert forall|m: Seq<char>| conflicting(gs, m) implies (exists|t: int|
                    0 <= t < acc.deep_view().len() && (#[trigger] acc.deep_view()[t]).member
                        == m) || (exists|t: int| 0 <= t < out.deep_view().len()
                        && (#[trigger] out.deep_view()[t]).member == m) by {
                    if exists|t: int| 0 <= t < oad.len() && (#[trigger] oad[t]).member == m {
                        let t = choose|t: int| 0 <= t < oad.len()
                            && (#[trigger] oad[t]).member == m;
                        if t == oad.len() - 1 {
                            assert(owners(gs, m).len() < 2);
                            assert(false);
                        } else {
                            assert(acc.deep_view()[t].member == m);
                        }
                    }
                }
            }
        }
    }
    out
}

/// A detected set of conflicts: the caller's display labels, the structured
/// entries, and a rendered human-readable message.
#[derive(Debug)]
pub struct ConflictError {
    pub group_label: String,
    pub member_label: String,
    pub entries: Vec<ConflictEntry>,
    pub message: String,
}

/// Group names joined with `", "`.
pub open spec fn join_names(names: Seq<Seq<char>>) -> Seq<char>
    decreases names.len(),
{
    if names.len() == 0 {
        Seq::empty()
    } else if names.len() == 1 {
        names[0]
    } else {
        join_names(names.drop_last()) + ", "@ + names.last()
    }
}

/// One rendered line per conflicting member.
pub open spec fn render_entry(e: EntryModel) -> Seq<char> {
    "\n  "@ + e.member + ": "@ + join_names(e.groups)
}

/// The rendered lines of all entries, in order.
pub open spec fn render_entries(es: Seq<EntryModel>) -> Seq<char>
    decreases es.len(),
{
    if es.len() == 0 {
        Seq::empty()
    } else {
        render_entries(es.drop_last()) + render_entry(es.last())
    }
}

/// The full rendered message: a header naming the member label, then one
/// line per conflicting member.
pub open spec fn render_message(member_label: Seq<char>, es: Seq<EntryModel>) -> Seq<char> {
    member_label + " conflicts found:"@ + render_entries(es)
}

/// Renders the message that a `ConflictError` carries.
fn render(member_label: &str, entries: &Vec<ConflictEntry>) -> (r: String)
    ensures
        r@ == render_message(member_label@, entries.deep_view()),
{
    let ghost edv = entries.deep_view();
    let mut msg = String::new();
    msg.append(member_label);
    msg.append(" conflicts found:");
    proof {
        assert(edv.take(0) =~= Seq::<EntryModel>::empty());
        assert(msg@ =~= render_message(member_label@, edv.take(0)));
    }
    let mut i: usize = 0;
    while i < entries.len()
        invariant
            edv == entries.deep_view(),
            i <= edv.len(),
            edv.len() == entries@.len(),
            msg@ == render_message(member_label@, edv.take(i as int)),
        decreases entries@.len() - i,
    {
        let ghost base = msg@;
        msg.append("\n  ");
        msg.append(entries[i].member.as_str());
        msg.append(": ");
        proof {
            assert(entries@[i as int]@ == edv[i as int]);
            assert(msg@ =~= base + "\n  "@ + edv[i as int].member + ": "@);
        }
        let ghost mid = msg@;
        let e = &entries[i];
        let ghost names = e.groups.deep_view();
        let mut j: usize = 0;
        while j < e.groups.len()
            invariant
                names == e.groups.deep_view(),
                j <= names.len(),
                names.len() == e.groups@.len(),
                msg@ == mid + join_names(names.take(j as int)),
            decreases e.groups@.len() - j,
        {
            let ghost before = msg@;
            if j == 0 {
                msg.append(e.groups[j].as_str());
            } else {
                msg.append(", ");
                msg.append(e.groups[j].as_str());
            }
            proof {
                assert(e.groups@[j as int]@ == names[j as int]);
                assert(names.take(j as int + 1).drop_last() =~= names.take(j as int));
                assert(names.take(j as int + 1).last() == names[j as int]);
                if j == 0 {
                    assert(join_names(names.take(1)) == names[0]);
                    assert(mid + Seq::<char>::empty() =~= mid);
                    assert(msg@ =~= mid + join_names(names.take(j as int + 1)));
                } else {
                    assert(join_names(names.take(j as int + 1)) == join_names(
                        names.take(j as int),
                    ) + ", "@ + names[j as int]);
                    assert(msg@ =~= mid + join_names(names.take(j as int + 1)));
                }
            }
            j += 1;
        }
        proof {
            assert(names.take(names.len() as int) =~= names);
            assert(edv.take(i as int + 1).drop_last() =~= edv.take(i as int));
            assert(edv.take(i as int + 1).last() == edv[i as int]);
            assert(render_entries(edv.take(i as int + 1)) == render_entries(edv.take(i as int))
                + render_entry(edv[i as int]));
            assert(render_entry(edv[i as int]) == "\n  "@ + edv[i as int].member + ": "@
                + join_names(names));
            assert(msg@ =~= render_message(member_label@, edv.take(i as int + 1)));
        }
        i += 1;
    }
    proof {
        assert(edv.take(edv.len() as int) =~= edv);
    }
    msg
}

/// Succeeds silently when there is nothing to report; otherwise fails with
/// the full structured payload and a rendered message.
pub fn report(group_label: &str, member_label: &str, entries: Vec<ConflictEntry>) -> (r: Result<
    (),
    ConflictError,
>)
    ensures
        match r {
            Ok(()) => entries@.len() == 0,
            Err(e) => entries@.len() > 0 && e.group_label@ == group_label@ && e.member_label@
                == member_label@ && e.entries.deep_view() == entries.deep_view() && e.message@
                == render_message(member_label@, entries.deep_view()),
        },
{
    if entries.len() == 0 {
        Ok(())
    } else {
        let message = render(member_label, &entries);
        Err(ConflictError {
            group_label: group_label.to_owned(),
            member_label: member_label.to_owned(),
            entries,
            message,
        })
    }
}

/// Detects conflicts among the groups and reports them: returns `Ok` exactly
/// when no member is claimed by two or more groups, and otherwise an error
/// whose entries satisfy everything `detect` promises.
pub fn conflicts(group_label: &str, member_label: &str, groups: &Vec<Group>) -> (r: Result<
    (),
    ConflictError,
>)
    requires
        groups_wf(groups.deep_view()),
    ensures
        match r {
            Ok(()) => forall|m: Seq<char>| !conflicting(groups.deep_view(), m),
            Err(e) => (exists|m: Seq<char>| conflicting(groups.deep_view(), m)) && detect_post(
                groups.deep_view(),
                e.entries.deep_view(),
            ) && e.entries.deep_view().len() > 0 && e.group_label@ == group_label@
                && e.member_label@ == member_label@ && e.message@ == render_message(
                member_label@,
                e.entries.deep_view(),
            ),
        },
{
    let entries = detect(groups);
    proof {
        if entries.deep_view().len() == 0 {
            assert forall|m: Seq<char>| !conflicting(groups.deep_view(), m) by {
                if conflicting(groups.deep_view(), m) {
                    let t = choose|t: int| 0 <= t < entries.deep_view().len()
                        && #[trigger] entries.deep_view()[t].member == m;
                }
            }
        } else {
            assert(conflicting(groups.deep_view(), entries.deep_view()[0].member));
        }
    }
    report(group_label, member_label, entries)
}

} // verus!
