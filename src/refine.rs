use vstd::prelude::*;
use crate::scan::{record, values_within, query_types, ResultMap};
use crate::tree_map::BPlusTreeMap;
use crate::types::{SearchMode, SearchQuery, SearchValue, ValueType};

verus! {

/// The bytes read back from a stored address.
pub struct ReadValue {
    pub addr: u64,
    pub value_type: ValueType,
    pub bytes: Vec<u8>,
}

/// `v` matches the bytes read back in `r`.
pub open spec fn fits(v: SearchValue, r: ReadValue) -> bool {
    v.type_spec().size_spec() <= r.bytes@.len() && v.matches_spec(r.bytes@)
}

/// The stored items that a single-value refine keeps: read as the target's
/// type and still matching it, in their order.
pub open spec fn refine_single_spec(rs: Seq<ReadValue>, target: SearchValue) -> Seq<(u64, ValueType)>
    decreases rs.len(),
{
    if rs.len() == 0 {
        Seq::empty()
    } else {
        let last = rs.last();
        let rest = refine_single_spec(rs.drop_last(), target);
        if last.value_type == target.type_spec() && fits(target, last) {
            rest.push((last.addr, last.value_type))
        } else {
            rest
        }
    }
}

/// Keeps the read-back items that still match `target`.
pub fn refine_single_search(values: &Vec<ReadValue>, target: &SearchValue) -> (r: Vec<(u64, ValueType)>)
    requires
        target.is_int_spec(),
    ensures
        r@ == refine_single_spec(values@, *target),
{
    let mut out: Vec<(u64, ValueType)> = Vec::new();
    let vt = target.value_type();
    let size = vt.size();
    let mut i: usize = 0;
    while i < values.len()
        invariant
            target.is_int_spec(),
            vt == target.type_spec(),
            size == vt.size_spec(),
            i <= values@.len(),
            out@ == refine_single_spec(values@.take(i as int), *target),
        decreases values@.len() - i,
    {
        let rv = &values[i];
        assert(values@.take(i + 1).drop_last() =~= values@.take(i as int));
        if rv.value_type == vt && size <= rv.bytes.len() && target.matched_at(rv.bytes.as_slice(), 0) {
            assert(rv.bytes@.subrange(0, rv.bytes@.len() as int) =~= rv.bytes@);
            out.push((rv.addr, rv.value_type));
        } else {
            assert(rv.bytes@.subrange(0, rv.bytes@.len() as int) =~= rv.bytes@);
        }
        i = i + 1;
    }
    assert(values@.take(values@.len() as int) =~= values@);
    out
}

/// The addresses that may join a combination around `anchor`: within the
/// query's window of it (after it, for ordered queries) and not the anchor.
pub open spec fn in_anchor_window(q: SearchQuery, anchor: u64, addr: u64) -> bool {
    let lo = if q.mode == SearchMode::Ordered {
        anchor as int
    } else if anchor >= q.range {
        anchor - q.range
    } else {
        0
    };
    lo <= addr && addr <= anchor + q.range && addr != anchor
}

/// Indices (into `rs`, ascending) of the candidates around `anchor`.
pub open spec fn candidates_spec(q: SearchQuery, rs: Seq<ReadValue>, anchor: u64, n: int) -> Seq<int>
    decreases n,
{
    if n <= 0 {
        Seq::empty()
    } else {
        let rest = candidates_spec(q, rs, anchor, n - 1);
        if in_anchor_window(q, anchor, rs[n - 1].addr) {
            rest.push(n - 1)
        } else {
            rest
        }
    }
}

/// Address `a` is emitted by the search from a partial combination `chosen`
/// (one address per query value so far), trying for the next value every
/// candidate from `from` on that is not chosen yet.
pub open spec fn dfs_node(q: SearchQuery, rs: Seq<ReadValue>, cands: Seq<int>, chosen: Seq<u64>, from: int, a: u64) -> bool
    decreases q.values@.len() - chosen.len(), cands.len() + 1 - from,
{
    if chosen.len() >= q.values@.len() {
        chosen.contains(a)
    } else if 0 <= from <= cands.len() {
        dfs_loop(q, rs, cands, chosen, from, a)
    } else {
        false
    }
}

/// Address `a` is emitted by extending `chosen` with a candidate at index
/// `i` or later; the search goes on with every candidate again.
pub open spec fn dfs_loop(q: SearchQuery, rs: Seq<ReadValue>, cands: Seq<int>, chosen: Seq<u64>, i: int, a: u64) -> bool
    decreases q.values@.len() - chosen.len(), cands.len() - i,
{
    if i < 0 || i >= cands.len() || chosen.len() >= q.values@.len() {
        false
    } else {
        let r = rs[cands[i]];
        (fits(q.values@[chosen.len() as int], r) && !chosen.contains(r.addr) && dfs_node(q, rs, cands, chosen.push(r.addr), 0, a))
            || dfs_loop(q, rs, cands, chosen, i + 1, a)
    }
}

/// Address `a` is in a complete combination around some anchor (an item
/// matching the first value): the other values each on a distinct candidate
/// around the anchor, in any order, each matching.
pub open spec fn refine_group_hit(q: SearchQuery, rs: Seq<ReadValue>, a: u64) -> bool {
    exists|k: int|
        0 <= k < rs.len() && fits(q.values@[0], rs[k]) && #[trigger] dfs_node(
            q,
            rs,
            candidates_spec(q, rs, rs[k].addr, rs.len() as int),
            seq![rs[k].addr],
            0,
            a,
        )
}

/// The emitted-address set of `dfs_node`.
pub open spec fn node_set(q: SearchQuery, rs: Seq<ReadValue>, cands: Seq<int>, chosen: Seq<u64>, from: int) -> Set<u64> {
    Set::new(|a: u64| dfs_node(q, rs, cands, chosen, from, a))
}

/// Addresses emitted by the loop over candidates `[from, i)`.
pub open spec fn loop_prefix(q: SearchQuery, rs: Seq<ReadValue>, cands: Seq<int>, chosen: Seq<u64>, from: int, i: int) -> Set<u64> {
    Set::new(|a: u64| exists|j: int| from <= j < i && #[trigger] step_hit(q, rs, cands, chosen, j, a))
}

/// Address `a` is emitted through candidate `j` taken next.
pub open spec fn step_hit(q: SearchQuery, rs: Seq<ReadValue>, cands: Seq<int>, chosen: Seq<u64>, j: int, a: u64) -> bool {
    0 <= j < cands.len() && {
        let r = rs[cands[j]];
        chosen.len() < q.values@.len() && fits(q.values@[chosen.len() as int], r) && !chosen.contains(r.addr) && dfs_node(q, rs, cands, chosen.push(r.addr), 0, a)
    }
}

pub proof fn lemma_loop_unfold(q: SearchQuery, rs: Seq<ReadValue>, cands: Seq<int>, chosen: Seq<u64>, i: int, a: u64)
    requires
        0 <= i,
    ensures
        dfs_loop(q, rs, cands, chosen, i, a) <==> exists|j: int| i <= j && #[trigger] step_hit(q, rs, cands, chosen, j, a),
    decreases cands.len() - i,
{
    if i < cands.len() {
        lemma_loop_unfold(q, rs, cands, chosen, i + 1, a);
        if dfs_loop(q, rs, cands, chosen, i, a) {
            if step_hit(q, rs, cands, chosen, i, a) {
            } else {
                let j = choose|j: int| i + 1 <= j && #[trigger] step_hit(q, rs, cands, chosen, j, a);
            }
        }
        if exists|j: int| i <= j && #[trigger] step_hit(q, rs, cands, chosen, j, a) {
            let j = choose|j: int| i <= j && #[trigger] step_hit(q, rs, cands, chosen, j, a);
            if j > i {
                assert(dfs_loop(q, rs, cands, chosen, i + 1, a));
            }
        }
    } else {
        if exists|j: int| i <= j && #[trigger] step_hit(q, rs, cands, chosen, j, a) {
            let j = choose|j: int| i <= j && #[trigger] step_hit(q, rs, cands, chosen, j, a);
        }
    }
}

/// Depth-first search over the candidates, emitting every address of every
/// complete combination that extends `chosen`.
fn dfs<C: Fn() -> bool>(
    values: &Vec<ReadValue>,
    cands: &Vec<usize>,
    query: &SearchQuery,
    chosen: &mut Vec<u64>,
    from: usize,
    results: &mut ResultMap,
    cancel: &C,
    steps: &mut u64,
    stopped: &mut bool,
)
    requires
        call_requires(*cancel, ()),
        !*old(stopped),
        query.all_int(),
        1 <= query.values@.len() <= 64,
        old(chosen)@.len() >= 1,
        old(chosen)@.len() <= query.values@.len(),
        from <= cands@.len(),
        forall|j: int| 0 <= j < cands@.len() ==> #[trigger] cands@[j] < values@.len(),
        old(results).wf(),
        values_within(old(results), query_types(*query)),
    ensures
        final(chosen)@ == old(chosen)@,
        final(results).wf(),
        values_within(final(results), query_types(*query)),
        !*final(stopped) ==> final(results).key_seq().to_set() == old(results).key_seq().to_set().union(
            node_set(*query, values@, cands@.map_values(|c: usize| c as int), old(chosen)@, from as int),
        ),
        (forall|r: bool| call_ensures(*cancel, (), r) ==> !r) ==> !*final(stopped),
    decreases query.values@.len() - old(chosen)@.len(), cands@.len() - from,
{
    let ghost cs = cands@.map_values(|c: usize| c as int);
    let ghost start_keys = results.key_seq().to_set();
    let ghost ch = chosen@;
    let need = query.values.len();
    if chosen.len() >= need {
        let mut k: usize = 0;
        while k < chosen.len()
            invariant
                chosen@ == ch,
                k <= ch.len(),
                results.wf(),
                values_within(results, query_types(*query)),
                query.values@.len() >= 1,
                ch.len() == query.values@.len(),
                results.key_seq().to_set() == start_keys.union(Set::new(|a: u64| exists|j: int| 0 <= j < k && ch[j] == a)),
            decreases ch.len() - k,
        {
            assert(query_types(*query).contains(query.values@[k as int].type_spec()));
            record(results, chosen[k], query.values[k].value_type(), Ghost(query_types(*query)));
            assert(results.key_seq().to_set() =~= start_keys.union(Set::new(|a: u64| exists|j: int| 0 <= j < k + 1 && ch[j] == a)));
            k = k + 1;
        }
        assert(Set::new(|a: u64| exists|j: int| 0 <= j < ch.len() && ch[j] == a) =~= node_set(*query, values@, cs, ch, from as int));
        return;
    }
    let sv = &query.values[chosen.len()];
    let size = sv.value_type().size();
    let mut i = from;
    while i < cands.len()
        invariant
            query.all_int(),
            1 <= query.values@.len() <= 64,
            need == query.values@.len(),
            ch.len() < need,
            chosen@ == ch,
            *sv == query.values@[ch.len() as int],
            size == sv.type_spec().size_spec(),
            from <= i <= cands@.len(),
            cs == cands@.map_values(|c: usize| c as int),
            forall|j: int| 0 <= j < cands@.len() ==> #[trigger] cands@[j] < values@.len(),
            results.wf(),
            values_within(results, query_types(*query)),
            results.key_seq().to_set() == start_keys.union(loop_prefix(*query, values@, cs, ch, from as int, i as int)),
            call_requires(*cancel, ()),
            !*stopped,
            ch == old(chosen)@,
        decreases cands@.len() - i,
    {
        if *steps < u64::MAX {
            *steps = *steps + 1;
        }
        if *steps % 500 == 0 && cancel() {
            *stopped = true;
            return;
        }
        let idx = cands[i];
        let rv = &values[idx];
        assert(cs[i as int] == idx);
        let ok = size <= rv.bytes.len() && sv.matched_at(rv.bytes.as_slice(), 0) && !contains_addr(chosen, rv.addr);
        assert(rv.bytes@.subrange(0, rv.bytes@.len() as int) =~= rv.bytes@);
        let ghost before = results.key_seq().to_set();
        if ok {
            chosen.push(rv.addr);
            dfs(values, cands, query, chosen, 0, results, cancel, steps, stopped);
            chosen.pop();
            assert(chosen@ =~= ch);
            if *stopped {
                return;
            }
        }
        proof {
            let here = Set::new(|a: u64| step_hit(*query, values@, cs, ch, i as int, a));
            if ok {
                assert(node_set(*query, values@, cs, ch.push(rv.addr), 0) =~= here);
            } else {
                assert(here =~= Set::<u64>::empty());
            }
            assert forall|a: u64| loop_prefix(*query, values@, cs, ch, from as int, i + 1).contains(a) <==> (loop_prefix(*query, values@, cs, ch, from as int, i as int).contains(a) || here.contains(a)) by {
                if loop_prefix(*query, values@, cs, ch, from as int, i + 1).contains(a) {
                    let j = choose|j: int| from <= j < i + 1 && #[trigger] step_hit(*query, values@, cs, ch, j, a);
                    if j < i {
                        assert(loop_prefix(*query, values@, cs, ch, from as int, i as int).contains(a));
                    }
                }
                if here.contains(a) {
                    assert(step_hit(*query, values@, cs, ch, i as int, a));
                }
            }
            assert(results.key_seq().to_set() =~= start_keys.union(loop_prefix(*query, values@, cs, ch, from as int, i + 1)));
        }
        i = i + 1;
    }
    proof {
        assert forall|a: u64| loop_prefix(*query, values@, cs, ch, from as int, i as int).contains(a) <==> node_set(*query, values@, cs, ch, from as int).contains(a) by {
            lemma_loop_unfold(*query, values@, cs, ch, from as int, a);
            if node_set(*query, values@, cs, ch, from as int).contains(a) {
                let j = choose|j: int| from <= j && #[trigger] step_hit(*query, values@, cs, ch, j, a);
            }
        }
        assert(loop_prefix(*query, values@, cs, ch, from as int, i as int) =~= node_set(*query, values@, cs, ch, from as int));
    }
}

fn contains_addr(v: &Vec<u64>, a: u64) -> (r: bool)
    ensures
        r == v@.contains(a),
{
    let mut i: usize = 0;
    while i < v.len()
        invariant
            i <= v@.len(),
            forall|j: int| 0 <= j < i ==> v@[j] != a,
        decreases v@.len() - i,
    {
        if v[i] == a {
            return true;
        }
        i = i + 1;
    }
    false
}

} // verus!

verus! {

/// Indices of the candidates around `anchor`, ascending.
fn collect_candidates(values: &Vec<ReadValue>, query: &SearchQuery, anchor: u64) -> (r: Vec<usize>)
    requires
        values@.len() <= usize::MAX,
    ensures
        r@.map_values(|c: usize| c as int) == candidates_spec(*query, values@, anchor, values@.len() as int),
        forall|j: int| 0 <= j < r@.len() ==> #[trigger] r@[j] < values@.len(),
{
    let range = query.range as u64;
    let ordered = query.mode == SearchMode::Ordered;
    let lo = if ordered {
        anchor
    } else if anchor >= range {
        anchor - range
    } else {
        0
    };
    let mut out: Vec<usize> = Vec::new();
    let mut i: usize = 0;
    while i < values.len()
        invariant
            i <= values@.len(),
            range == query.range,
            ordered == (query.mode == SearchMode::Ordered),
            lo == (if ordered {
                anchor as int
            } else if anchor >= query.range {
                anchor - query.range
            } else {
                0
            }),
            out@.map_values(|c: usize| c as int) == candidates_spec(*query, values@, anchor, i as int),
            forall|j: int| 0 <= j < out@.len() ==> #[trigger] out@[j] < i,
        decreases values@.len() - i,
    {
        let a = values[i].addr;
        let inside = lo <= a && (a as u128) <= anchor as u128 + range as u128 && a != anchor;
        if inside {
            out.push(i);
            assert(out@.map_values(|c: usize| c as int) =~= candidates_spec(*query, values@, anchor, i as int).push(i as int));
        }
        i = i + 1;
    }
    out
}

/// Group refine: every read-back item matching the query's first value is
/// an anchor; for each, the depth-first search assigns the remaining values
/// to distinct candidates around it, and every address of every complete
/// combination is recorded.
pub fn refine_search_group_with_dfs_and_cancel<C: Fn() -> bool>(
    values: &Vec<ReadValue>,
    query: &SearchQuery,
    cancel: &C,
) -> (r: Option<ResultMap>)
    requires
        query.all_int(),
        1 <= query.values@.len() <= 64,
        call_requires(*cancel, ()),
    ensures
        r matches Some(m) ==> m.wf() && values_within(&m, query_types(*query)) && m.key_seq().to_set()
            == Set::new(|a: u64| refine_group_hit(*query, values@, a)),
        (forall|b: bool| call_ensures(*cancel, (), b) ==> !b) ==> r is Some,
{
    let mut steps: u64 = 0;
    let mut stopped = false;
    let mut results: ResultMap = BPlusTreeMap::new(256);
    let first = &query.values[0];
    let size = first.value_type().size();
    let mut k: usize = 0;
    while k < values.len()
        invariant
            query.all_int(),
            1 <= query.values@.len() <= 64,
            call_requires(*cancel, ()),
            !stopped,
            *first == query.values@[0],
            size == first.type_spec().size_spec(),
            k <= values@.len(),
            results.wf(),
            values_within(&results, query_types(*query)),
            results.key_seq().to_set() == Set::new(|a: u64| exists|j: int|
                0 <= j < k && fits(query.values@[0], values@[j]) && #[trigger] dfs_node(
                    *query,
                    values@,
                    candidates_spec(*query, values@, values@[j].addr, values@.len() as int),
                    seq![values@[j].addr],
                    0,
                    a,
                )),
        decreases values@.len() - k,
    {
        let rv = &values[k];
        assert(rv.bytes@.subrange(0, rv.bytes@.len() as int) =~= rv.bytes@);
        let ghost before = results.key_seq().to_set();
        let is_anchor = size <= rv.bytes.len() && first.matched_at(rv.bytes.as_slice(), 0);
        let ghost cs = candidates_spec(*query, values@, rv.addr, values@.len() as int);
        if is_anchor {
            let cands = collect_candidates(values, query, rv.addr);
            let mut chosen: Vec<u64> = Vec::new();
            chosen.push(rv.addr);
            assert(chosen@ =~= seq![rv.addr]);
            dfs(values, &cands, query, &mut chosen, 0, &mut results, cancel, &mut steps, &mut stopped);
            if stopped {
                return None;
            }
        }
        proof {
            let here = Set::new(|a: u64| fits(query.values@[0], values@[k as int]) && dfs_node(*query, values@, cs, seq![values@[k as int].addr], 0, a));
            if is_anchor {
                assert(node_set(*query, values@, cs, seq![rv.addr], 0) =~= here);
            } else {
                assert(here =~= Set::<u64>::empty());
            }
            assert(results.key_seq().to_set() =~= Set::new(|a: u64| exists|j: int|
                0 <= j < k + 1 && fits(query.values@[0], values@[j]) && #[trigger] dfs_node(
                    *query,
                    values@,
                    candidates_spec(*query, values@, values@[j].addr, values@.len() as int),
                    seq![values@[j].addr],
                    0,
                    a,
                ))) by {
                assert forall|a: u64| (exists|j: int|
                    0 <= j < k + 1 && fits(query.values@[0], values@[j]) && #[trigger] dfs_node(
                        *query,
                        values@,
                        candidates_spec(*query, values@, values@[j].addr, values@.len() as int),
                        seq![values@[j].addr],
                        0,
                        a,
                    )) <==> before.contains(a) || here.contains(a) by {
                    if exists|j: int|
                        0 <= j < k + 1 && fits(query.values@[0], values@[j]) && #[trigger] dfs_node(
                            *query,
                            values@,
                            candidates_spec(*query, values@, values@[j].addr, values@.len() as int),
                            seq![values@[j].addr],
                            0,
                            a,
                        ) {
                        let j = choose|j: int|
                            0 <= j < k + 1 && fits(query.values@[0], values@[j]) && #[trigger] dfs_node(
                                *query,
                                values@,
                                candidates_spec(*query, values@, values@[j].addr, values@.len() as int),
                                seq![values@[j].addr],
                                0,
                                a,
                            );
                        if j < k {
                            assert(before.contains(a));
                        }
                    }
                }
            }
        }
        k = k + 1;
    }
    proof {
        assert(results.key_seq().to_set() =~= Set::new(|a: u64| refine_group_hit(*query, values@, a)));
    }
    Some(results)
}

/// Group refine run to its end; see `refine_search_group_with_dfs_and_cancel`.
pub fn refine_search_group_with_dfs(values: &Vec<ReadValue>, query: &SearchQuery) -> (r: ResultMap)
    requires
        query.all_int(),
        1 <= query.values@.len() <= 64,
    ensures
        r.wf(),
        values_within(&r, query_types(*query)),
        r.key_seq().to_set() == Set::new(|a: u64| refine_group_hit(*query, values@, a)),
{
    let never = || -> (b: bool)
        ensures
            !b,
    { false };
    match refine_search_group_with_dfs_and_cancel(values, query, &never) {
        Some(m) => m,
        None => BPlusTreeMap::new(256),
    }
}

/// Refining with the first value alone keeps exactly the anchors.
pub proof fn lemma_single_value_group_refine(q: SearchQuery, rs: Seq<ReadValue>, a: u64)
    requires
        q.values@.len() == 1,
    ensures
        refine_group_hit(q, rs, a) <==> exists|k: int| 0 <= k < rs.len() && fits(q.values@[0], rs[k]) && rs[k].addr == a,
{
    if refine_group_hit(q, rs, a) {
        let k = choose|k: int|
            0 <= k < rs.len() && fits(q.values@[0], rs[k]) && #[trigger] dfs_node(
                q,
                rs,
                candidates_spec(q, rs, rs[k].addr, rs.len() as int),
                seq![rs[k].addr],
                0,
                a,
            );
        assert(seq![rs[k].addr].contains(a));
        assert(seq![rs[k].addr][0] == a) by {
            let i = choose|i: int| 0 <= i < 1 && seq![rs[k].addr][i] == a;
        }
    }
    if exists|k: int| 0 <= k < rs.len() && fits(q.values@[0], rs[k]) && rs[k].addr == a {
        let k = choose|k: int| 0 <= k < rs.len() && fits(q.values@[0], rs[k]) && rs[k].addr == a;
        assert(seq![rs[k].addr][0] == a);
        assert(dfs_node(q, rs, candidates_spec(q, rs, rs[k].addr, rs.len() as int), seq![rs[k].addr], 0, a));
    }
}

} // verus!

verus! {

/// Refining with the query that found the items, over unchanged memory,
/// keeps every item.
pub proof fn lemma_refine_unchanged_keeps_all(rs: Seq<ReadValue>, target: SearchValue)
    requires
        forall|i: int| 0 <= i < rs.len() ==> (#[trigger] rs[i]).value_type == target.type_spec() && fits(target, rs[i]),
    ensures
        refine_single_spec(rs, target) == rs.map_values(|r: ReadValue| (r.addr, r.value_type)),
    decreases rs.len(),
{
    if rs.len() > 0 {
        assert forall|i: int| 0 <= i < rs.drop_last().len() implies (#[trigger] rs.drop_last()[i]).value_type == target.type_spec() && fits(target, rs.drop_last()[i]) by {
            assert(rs.drop_last()[i] == rs[i]);
        }
        lemma_refine_unchanged_keeps_all(rs.drop_last(), target);
        assert(rs[rs.len() - 1] == rs.last());
        assert(rs.map_values(|r: ReadValue| (r.addr, r.value_type)) =~= rs.drop_last().map_values(|r: ReadValue| (r.addr, r.value_type)).push((rs.last().addr, rs.last().value_type)));
    } else {
        assert(rs.map_values(|r: ReadValue| (r.addr, r.value_type)) =~= Seq::<(u64, ValueType)>::empty());
    }
}

} // verus!
