//! The laws the loader obeys, proved over the spec-level transition
//! `get_spec` and the scan functions that define it.

use vstd::prelude::*;
use crate::assoc::{alist_find, lemma_find_witness, lemma_find_push};
use crate::font::{FontClass, FontInfoV, FontQueryV};
use crate::loader::{
    LoaderModel, ScanOutcome, ScanState, commit_spec, get_index, get_spec, model_wf, scan_fallback,
    scan_infos, scan_provs, viable,
};
use crate::provider::FontProvider;

verus! {

/// `b` carries `a` unchanged as its prefix.
pub open spec fn seq_extends<T>(a: Seq<T>, b: Seq<T>) -> bool {
    &&& a.len() <= b.len()
    &&& forall|i: int| 0 <= i < a.len() ==> a[i] == #[trigger] b[i]
}

/// Every cache entry points into the store.
pub open spec fn st_wf(st: ScanState) -> bool {
    forall|k: int| 0 <= k < st.cache.len() ==> 0 <= (#[trigger] st.cache[k]).1 < st.store.len()
}

/// What a scan leaves intact and what it may add: the store and the
/// descriptor cache only grow, existing cache bindings keep their value, the
/// added store entries carry no external index, and a hit points at a store
/// entry whose font covers the query's character.
pub open spec fn scan_frame(q: FontQueryV, st: ScanState, oc: ScanOutcome) -> bool {
    let st2 = oc.state();
    &&& seq_extends(st.store, st2.store)
    &&& seq_extends(st.cache, st2.cache)
    &&& forall|key: FontInfoV|
        alist_find(st.cache, key) is Some ==> #[trigger] alist_find(st2.cache, key) == alist_find(
            st.cache,
            key,
        )
    &&& forall|i: int| st.store.len() <= i < st2.store.len() ==> (#[trigger] st2.store[i]).0 is None
    &&& (st_wf(st) ==> st_wf(st2))
    &&& (st_wf(st) ==> (oc matches ScanOutcome::Hit { st: sth, index } ==> 0 <= index
        < sth.store.len() && sth.store[index].1.contains(q.character)))
}

/// One provider's scan respects the frame.
pub proof fn lemma_scan_infos_frame<P: FontProvider>(
    p: P,
    items: Seq<FontInfoV>,
    class: FontClass,
    q: FontQueryV,
    st: ScanState,
)
    ensures
        scan_frame(q, st, scan_infos(p, items, class, q, st)),
    decreases items.len(),
{
    if items.len() == 0 {
    } else {
        let info = items[0];
        let rest = items.drop_first();
        if viable(info, class, q) {
            match alist_find(st.cache, info) {
                Some(index) => {
                    lemma_find_witness(st.cache, info);
                    if st.store[index].1.contains(q.character) {
                    } else {
                        lemma_scan_infos_frame(p, rest, class, q, st);
                    }
                }
                None => {
                    match p.supply(info) {
                        Some(f) => {
                            let index = st.store.len() as int;
                            let st2 = ScanState {
                                store: st.store.push((None, f)),
                                cache: st.cache.push((info, index)),
                            };
                            assert forall|key: FontInfoV| alist_find(st.cache, key) is Some
                                implies #[trigger] alist_find(st2.cache, key) == alist_find(
                                st.cache,
                                key,
                            ) by {
                                lemma_find_push(st.cache, key, info, index);
                            }
                            if f.contains(q.character) {
                            } else {
                                lemma_scan_infos_frame(p, rest, class, q, st2);
                            }
                        }
                        None => {
                            lemma_scan_infos_frame(p, rest, class, q, st);
                        }
                    }
                }
            }
        } else {
            lemma_scan_infos_frame(p, rest, class, q, st);
        }
    }
}

/// One class pass over all providers respects the frame.
pub proof fn lemma_scan_provs_frame<P: FontProvider>(
    provs: Seq<P>,
    class: FontClass,
    q: FontQueryV,
    st: ScanState,
)
    ensures
        scan_frame(q, st, scan_provs(provs, class, q, st)),
    decreases provs.len(),
{
    if provs.len() == 0 {
    } else {
        lemma_scan_infos_frame(provs[0], provs[0].infos(), class, q, st);
        match scan_infos(provs[0], provs[0].infos(), class, q, st) {
            ScanOutcome::Hit { .. } => {}
            ScanOutcome::Miss { st: st2 } => {
                lemma_scan_provs_frame(provs.drop_first(), class, q, st2);
            }
        }
    }
}

/// A whole scan respects the frame.
pub proof fn lemma_scan_fallback_frame<P: FontProvider>(
    provs: Seq<P>,
    fallback: Seq<FontClass>,
    q: FontQueryV,
    st: ScanState,
)
    ensures
        scan_frame(q, st, scan_fallback(provs, fallback, q, st)),
    decreases fallback.len(),
{
    if fallback.len() == 0 {
    } else {
        lemma_scan_provs_frame(provs, fallback[0], q, st);
        match scan_provs(provs, fallback[0], q, st) {
            ScanOutcome::Hit { .. } => {}
            ScanOutcome::Miss { st: st2 } => {
                lemma_scan_fallback_frame(provs, fallback.drop_first(), q, st2);
            }
        }
    }
}

/// A consistent loader state stays consistent through any `get`.
pub proof fn lemma_get_preserves_wf<P: FontProvider>(provs: Seq<P>, m: LoaderModel, q: FontQueryV)
    requires
        model_wf(m),
    ensures
        model_wf(get_spec(provs, m, q).0),
{
    match alist_find(m.qc, q) {
        Some(i) => {}
        None => {
            lemma_find_witness(m.qc, q);
            lemma_scan_fallback_frame(provs, q.fallback, q, m.scan_state());
            match scan_fallback(provs, q.fallback, q, m.scan_state()) {
                ScanOutcome::Miss { st } => {
                    let m1 = LoaderModel { store: st.store, ic: st.cache, qc: m.qc, ext: m.ext };
                    assert forall|k1: int, k2: int| 0 <= k1 < k2 < m1.ic.len() implies m1.ic[k1].0
                        != m1.ic[k2].0 by {
                        lemma_scan_cache_distinct(provs, q, m.scan_state(), st, k1, k2);
                    }
                    assert(model_wf(m1));
                }
                ScanOutcome::Hit { st, index } => {
                    assert(q.fallback.len() > 0) by {
                        if q.fallback.len() == 0 {
                            assert(scan_fallback(provs, q.fallback, q, m.scan_state())
                                == ScanOutcome::Miss { st: m.scan_state() });
                        }
                    }
                    let mi = LoaderModel { store: st.store, ic: st.cache, qc: m.qc, ext: m.ext };
                    let m1 = commit_spec(mi, q, index).0;
                    assert forall|k1: int, k2: int| 0 <= k1 < k2 < m1.ic.len() implies m1.ic[k1].0
                        != m1.ic[k2].0 by {
                        lemma_scan_cache_distinct(provs, q, m.scan_state(), st, k1, k2);
                    }
                    match st.store[index].0 {
                        Some(e) => {
                            assert(model_wf(m1));
                        }
                        None => {
                            assert(model_wf(m1));
                        }
                    }
                }
            }
        }
    }
}

/// Idempotence: once `get` resolved a query, an equal query is served the
/// same external index and the same font, and the loader's state — store,
/// caches, external table — is left untouched: no further fetch or parse
/// happens for it.
pub proof fn lemma_get_idempotent<P: FontProvider>(provs: Seq<P>, m: LoaderModel, q: FontQueryV)
    requires
        model_wf(m),
        get_spec(provs, m, q).1 is Some,
    ensures
        get_spec(provs, get_spec(provs, m, q).0, q) == get_spec(provs, m, q),
{
    match alist_find(m.qc, q) {
        Some(i) => {}
        None => {
            lemma_scan_fallback_frame(provs, q.fallback, q, m.scan_state());
            match scan_fallback(provs, q.fallback, q, m.scan_state()) {
                ScanOutcome::Miss { st } => {}
                ScanOutcome::Hit { st, index } => {
                    let mi = LoaderModel { store: st.store, ic: st.cache, qc: m.qc, ext: m.ext };
                    let (m1, sv) = commit_spec(mi, q, index);
                    lemma_find_push(m.qc, q, q, index);
                    assert(alist_find(m1.qc, q) == Some(index));
                    match st.store[index].0 {
                        Some(e) => {
                            assert(get_spec(provs, m1, q) == (m1, Some((e, st.store[index].1))));
                        }
                        None => {
                            assert(m1.store[index].0 == Some(m.ext.len() as int));
                            assert(m1.store[index].1 == st.store[index].1);
                        }
                    }
                }
            }
        }
    }
}

/// Interning: two `get` calls — with equal or structurally distinct queries —
/// that resolve to the same store entry return the same external index.
pub proof fn lemma_interning<P: FontProvider>(
    provs: Seq<P>,
    m: LoaderModel,
    q1: FontQueryV,
    q2: FontQueryV,
    i: int,
)
    requires
        model_wf(m),
        get_index(provs, m, q1) == Some(i),
        get_index(provs, get_spec(provs, m, q1).0, q2) == Some(i),
    ensures
        ({
            let r1 = get_spec(provs, m, q1).1;
            let r2 = get_spec(provs, get_spec(provs, m, q1).0, q2).1;
            r1 matches Some(sv1) && r2 matches Some(sv2) && sv1.0 == sv2.0
        }),
{
    let m1 = get_spec(provs, m, q1).0;
    lemma_get_preserves_wf(provs, m, q1);
    lemma_get_at_index(provs, m, q1, i);
    let sv1 = get_spec(provs, m, q1).1->Some_0;
    assert(0 <= i < m1.store.len() && m1.store[i].0 == Some(sv1.0));
    lemma_get_at_index(provs, m1, q2, i);
}

/// Whenever `get` resolves at store entry `i`, it returns the external index
/// that entry carries afterwards.
proof fn lemma_get_at_index<P: FontProvider>(provs: Seq<P>, m: LoaderModel, q: FontQueryV, i: int)
    requires
        model_wf(m),
        get_index(provs, m, q) == Some(i),
    ensures
        ({
            let (m1, r) = get_spec(provs, m, q);
            &&& r matches Some(sv)
            &&& 0 <= i < m1.store.len()
            &&& m1.store[i].0 == Some(sv.0)
            &&& m1.store[i].1 == sv.1
            &&& (0 <= i < m.store.len() && m.store[i].0 is Some ==> m.store[i].0 == Some(sv.0))
        }),
{
    match alist_find(m.qc, q) {
        Some(j) => {
            lemma_find_witness(m.qc, q);
        }
        None => {
            lemma_scan_fallback_frame(provs, q.fallback, q, m.scan_state());
            match scan_fallback(provs, q.fallback, q, m.scan_state()) {
                ScanOutcome::Miss { st } => {}
                ScanOutcome::Hit { st, index } => {}
            }
        }
    }
}

/// External-index stability: an assigned handle keeps resolving to the same
/// font across any later `get`.
pub proof fn lemma_external_index_stable<P: FontProvider>(
    provs: Seq<P>,
    m: LoaderModel,
    q: FontQueryV,
    e: int,
)
    requires
        model_wf(m),
        0 <= e < m.ext.len(),
    ensures
        ({
            let m1 = get_spec(provs, m, q).0;
            &&& m.ext.len() <= m1.ext.len()
            &&& m1.ext[e] == m.ext[e]
            &&& m1.store[m.ext[e]].1 == m.store[m.ext[e]].1
        }),
{
    match alist_find(m.qc, q) {
        Some(j) => {}
        None => {
            lemma_scan_fallback_frame(provs, q.fallback, q, m.scan_state());
            match scan_fallback(provs, q.fallback, q, m.scan_state()) {
                ScanOutcome::Miss { st } => {}
                ScanOutcome::Hit { st, index } => {
                    match st.store[index].0 {
                        Some(e2) => {}
                        None => {
                            assert(st.store[m.ext[e]].0 == Some(e));
                            assert(m.ext[e] != index);
                        }
                    }
                }
            }
        }
    }
}

/// A successful `get` leaves its returned external index resolvable — by
/// `get_with_index` — to exactly the font it returned.
pub proof fn lemma_get_serves_handle<P: FontProvider>(provs: Seq<P>, m: LoaderModel, q: FontQueryV)
    requires
        model_wf(m),
        get_spec(provs, m, q).1 is Some,
    ensures
        ({
            let (m1, r) = get_spec(provs, m, q);
            r matches Some(sv) ==> 0 <= sv.0 < m1.ext.len() && m1.store[m1.ext[sv.0]].1 == sv.1
        }),
{
    match alist_find(m.qc, q) {
        Some(j) => {
            lemma_find_witness(m.qc, q);
        }
        None => {
            lemma_scan_fallback_frame(provs, q.fallback, q, m.scan_state());
            match scan_fallback(provs, q.fallback, q, m.scan_state()) {
                ScanOutcome::Miss { st } => {}
                ScanOutcome::Hit { st, index } => {}
            }
        }
    }
}

/// A font served by `get` really covers the query's character.
pub proof fn lemma_get_serves_character<P: FontProvider>(
    provs: Seq<P>,
    m: LoaderModel,
    q: FontQueryV,
)
    requires
        model_wf(m),
    ensures
        ({
            let r = get_spec(provs, m, q).1;
            r matches Some(sv) ==> sv.1.contains(q.character)
        }),
{
    match alist_find(m.qc, q) {
        Some(j) => {
            lemma_find_witness(m.qc, q);
        }
        None => {
            lemma_scan_fallback_frame(provs, q.fallback, q, m.scan_state());
        }
    }
}

/// Deduplicated loading: a descriptor whose font is cached is never loaded
/// again — every later `get` leaves its binding and its stored font
/// untouched, and serves that font wherever the descriptor is reached.
pub proof fn lemma_deduplicated_loading<P: FontProvider>(
    provs: Seq<P>,
    m: LoaderModel,
    q: FontQueryV,
    info: FontInfoV,
    i: int,
)
    requires
        model_wf(m),
        alist_find(m.ic, info) == Some(i),
    ensures
        ({
            let m1 = get_spec(provs, m, q).0;
            &&& alist_find(m1.ic, info) == Some(i)
            &&& 0 <= i < m1.store.len()
            &&& m1.store[i].1 == m.store[i].1
        }),
{
    lemma_find_witness(m.ic, info);
    match alist_find(m.qc, q) {
        Some(j) => {}
        None => {
            lemma_scan_fallback_frame(provs, q.fallback, q, m.scan_state());
        }
    }
}

/// Boundary: a query with an empty fallback list always returns absence and
/// leaves the state unchanged, for no class is ever scanned.
pub proof fn lemma_empty_fallback<P: FontProvider>(provs: Seq<P>, m: LoaderModel, q: FontQueryV)
    requires
        model_wf(m),
        q.fallback.len() == 0,
    ensures
        get_spec(provs, m, q) == (m, None::<(int, Seq<char>)>),
{
    lemma_find_witness(m.qc, q);
    if alist_find(m.qc, q) is Some {
        assert(false);
    }
    assert(scan_fallback(provs, q.fallback, q, m.scan_state()) == ScanOutcome::Miss {
        st: m.scan_state(),
    });
    assert(get_spec(provs, m, q).0 =~= m);
}

/// Boundary: a loader with zero registered providers returns absence for
/// every query; its query cache, empty from construction, stays empty, so
/// this holds at every point of such a loader's lifetime.
pub proof fn lemma_no_providers<P: FontProvider>(provs: Seq<P>, m: LoaderModel, q: FontQueryV)
    requires
        provs.len() == 0,
        m.qc.len() == 0,
    ensures
        get_spec(provs, m, q).1 is None,
        get_spec(provs, m, q).0.qc.len() == 0,
{
    lemma_scan_fallback_no_provs(provs, q.fallback, q, m.scan_state());
}

proof fn lemma_scan_fallback_no_provs<P: FontProvider>(
    provs: Seq<P>,
    fallback: Seq<FontClass>,
    q: FontQueryV,
    st: ScanState,
)
    requires
        provs.len() == 0,
    ensures
        scan_fallback(provs, fallback, q, st) == (ScanOutcome::Miss { st }),
    decreases fallback.len(),
{
    if fallback.len() > 0 {
        lemma_scan_fallback_no_provs(provs, fallback.drop_first(), q, st);
    }
}

/// The font a viable descriptor would be checked with at provider `p`: the
/// cached font if the descriptor was loaded before, else what `p` supplies.
pub open spec fn candidate<P: FontProvider>(p: P, st: ScanState, info: FontInfoV) -> Option<
    Seq<char>,
> {
    match alist_find(st.cache, info) {
        Some(i) => Some(st.store[i].1),
        None => p.supply(info),
    }
}

/// A provider advertising a viable descriptor whose font — cached or
/// supplied — covers the character is sure to hit when its list is scanned.
pub proof fn lemma_scan_infos_hits<P: FontProvider>(
    p: P,
    items: Seq<FontInfoV>,
    class: FontClass,
    q: FontQueryV,
    st: ScanState,
    k: int,
)
    requires
        st_wf(st),
        0 <= k < items.len(),
        viable(items[k], class, q),
        candidate(p, st, items[k]) matches Some(f) && f.contains(q.character),
    ensures
        scan_infos(p, items, class, q, st) is Hit,
    decreases items.len(),
{
    let info = items[0];
    let rest = items.drop_first();
    if viable(info, class, q) {
        match alist_find(st.cache, info) {
            Some(index) => {
                lemma_find_witness(st.cache, info);
                if st.store[index].1.contains(q.character) {
                } else {
                    assert(k != 0);
                    assert(rest[k - 1] == items[k]);
                    lemma_scan_infos_hits(p, rest, class, q, st, k - 1);
                }
            }
            None => {
                match p.supply(info) {
                    Some(f0) => {
                        let index = st.store.len() as int;
                        let st2 = ScanState {
                            store: st.store.push((None, f0)),
                            cache: st.cache.push((info, index)),
                        };
                        if f0.contains(q.character) {
                        } else {
                            assert(k != 0);
                            assert(rest[k - 1] == items[k]);
                            assert(candidate(p, st2, items[k]) == candidate(p, st, items[k])) by {
                                lemma_find_push(st.cache, items[k], info, index);
                                if items[k] == info {
                                    assert(candidate(p, st, items[k]) == Some(f0));
                                } else {
                                    match alist_find(st.cache, items[k]) {
                                        Some(i2) => {
                                            lemma_find_witness(st.cache, items[k]);
                                            assert(st2.store[i2] == st.store[i2]);
                                        }
                                        None => {}
                                    }
                                }
                            }
                            lemma_scan_infos_hits(p, rest, class, q, st2, k - 1);
                        }
                    }
                    None => {
                        assert(k != 0);
                        assert(rest[k - 1] == items[k]);
                        lemma_scan_infos_hits(p, rest, class, q, st, k - 1);
                    }
                }
            }
        }
    } else {
        assert(k != 0);
        assert(rest[k - 1] == items[k]);
        lemma_scan_infos_hits(p, rest, class, q, st, k - 1);
    }
}

/// Priority ordering, the winning side: if the first-registered provider
/// advertises a viable descriptor whose font covers the character, the class
/// pass serves that provider's scan — providers after it are never consulted.
pub proof fn lemma_provider_priority<P: FontProvider>(
    provs: Seq<P>,
    class: FontClass,
    q: FontQueryV,
    st: ScanState,
    k: int,
)
    requires
        st_wf(st),
        provs.len() > 0,
        0 <= k < provs[0].infos().len(),
        viable(provs[0].infos()[k], class, q),
        candidate(provs[0], st, provs[0].infos()[k]) matches Some(f) && f.contains(q.character),
    ensures
        scan_provs(provs, class, q, st) == scan_infos(provs[0], provs[0].infos(), class, q, st),
        scan_provs(provs, class, q, st) is Hit,
{
    lemma_scan_infos_hits(provs[0], provs[0].infos(), class, q, st, k);
}

/// Priority ordering, the losing side: providers registered after a hit was
/// found can never change the outcome of the class pass.
pub proof fn lemma_provider_priority_append<P: FontProvider>(
    provs: Seq<P>,
    more: Seq<P>,
    class: FontClass,
    q: FontQueryV,
    st: ScanState,
)
    requires
        scan_provs(provs, class, q, st) is Hit,
    ensures
        scan_provs(provs + more, class, q, st) == scan_provs(provs, class, q, st),
    decreases provs.len(),
{
    assert(provs.len() > 0);
    let all = provs + more;
    assert(all[0] == provs[0]);
    assert(all.drop_first() =~= provs.drop_first() + more);
    match scan_infos(provs[0], provs[0].infos(), class, q, st) {
        ScanOutcome::Hit { .. } => {}
        ScanOutcome::Miss { st: st2 } => {
            lemma_provider_priority_append(provs.drop_first(), more, class, q, st2);
        }
    }
}

/// Fallback ordering: all candidates of the first fallback class, across all
/// providers, are exhausted before any later class is tried — a hit under the
/// first class is the final result, and a later class is only scanned from
/// the state the earlier, fruitless pass left behind.
pub proof fn lemma_fallback_priority<P: FontProvider>(
    provs: Seq<P>,
    fallback: Seq<FontClass>,
    q: FontQueryV,
    st: ScanState,
)
    requires
        fallback.len() > 0,
    ensures
        scan_provs(provs, fallback[0], q, st) is Hit ==> scan_fallback(provs, fallback, q, st)
            == scan_provs(provs, fallback[0], q, st),
        scan_provs(provs, fallback[0], q, st) matches ScanOutcome::Miss { st: st1 } ==> scan_fallback(
            provs,
            fallback,
            q,
            st,
        ) == scan_fallback(provs, fallback.drop_first(), q, st1),
{
}

/// Fallback ordering, the losing side: classes appended after a hit was found
/// can never change the outcome of the scan.
pub proof fn lemma_fallback_priority_append<P: FontProvider>(
    provs: Seq<P>,
    fallback: Seq<FontClass>,
    more: Seq<FontClass>,
    q: FontQueryV,
    st: ScanState,
)
    requires
        scan_fallback(provs, fallback, q, st) is Hit,
    ensures
        scan_fallback(provs, fallback + more, q, st) == scan_fallback(provs, fallback, q, st),
    decreases fallback.len(),
{
    assert(fallback.len() > 0);
    let all = fallback + more;
    assert(all[0] == fallback[0]);
    assert(all.drop_first() =~= fallback.drop_first() + more);
    match scan_provs(provs, fallback[0], q, st) {
        ScanOutcome::Hit { .. } => {}
        ScanOutcome::Miss { st: st2 } => {
            lemma_fallback_priority_append(provs, fallback.drop_first(), more, q, st2);
        }
    }
}

/// The font a descriptor resolves to across the registered providers: the
/// supply of the first provider that both advertises it and delivers it.
pub open spec fn resolves<P: FontProvider>(provs: Seq<P>, info: FontInfoV) -> Option<Seq<char>>
    decreases provs.len(),
{
    if provs.len() == 0 {
        None
    } else if provs[0].infos().contains(info) && provs[0].supply(info) is Some {
        provs[0].supply(info)
    } else {
        resolves(provs.drop_first(), info)
    }
}

/// Every provider delivers every descriptor it advertises.
pub open spec fn honors_listings<P: FontProvider>(provs: Seq<P>) -> bool {
    forall|j: int, info: FontInfoV|
        0 <= j < provs.len() && #[trigger] provs[j].infos().contains(info) ==> provs[j].supply(
            info,
        ) is Some
}

/// Every cached descriptor holds the font it resolves to.
pub open spec fn coherent<P: FontProvider>(provs: Seq<P>, st: ScanState) -> bool {
    forall|k: int|
        0 <= k < st.cache.len() ==> {
            &&& 0 <= (#[trigger] st.cache[k]).1 < st.store.len()
            &&& resolves(provs, st.cache[k].0) == Some(st.store[st.cache[k].1].1)
        }
}

/// Every descriptor a provider before position `j` advertises that is viable
/// under this class has been loaded already.
pub open spec fn pass_covered<P: FontProvider>(
    provs: Seq<P>,
    j: int,
    class: FontClass,
    q: FontQueryV,
    st: ScanState,
) -> bool {
    forall|j2: int, info: FontInfoV|
        0 <= j2 < j && #[trigger] provs[j2].infos().contains(info) && viable(info, class, q)
            ==> alist_find(st.cache, info) is Some
}

/// The result a scan of one listing is bound to give, free of any state: the
/// resolved font of the first viable descriptor whose font has the character.
pub open spec fn pure_infos<P: FontProvider>(
    provs: Seq<P>,
    items: Seq<FontInfoV>,
    class: FontClass,
    q: FontQueryV,
) -> Option<Seq<char>>
    decreases items.len(),
{
    if items.len() == 0 {
        None
    } else if viable(items[0], class, q) && (resolves(provs, items[0]) matches Some(f)
        && f.contains(q.character)) {
        resolves(provs, items[0])
    } else {
        pure_infos(provs, items.drop_first(), class, q)
    }
}

/// The state-free result of one class pass from provider position `j` on.
pub open spec fn pure_provs<P: FontProvider>(
    provs: Seq<P>,
    j: int,
    class: FontClass,
    q: FontQueryV,
) -> Option<Seq<char>>
    decreases provs.len() - j,
{
    if j < 0 || j >= provs.len() {
        None
    } else {
        match pure_infos(provs, provs[j].infos(), class, q) {
            Some(f) => Some(f),
            None => pure_provs(provs, j + 1, class, q),
        }
    }
}

/// The state-free result of a whole scan.
pub open spec fn pure_fallback<P: FontProvider>(
    provs: Seq<P>,
    fallback: Seq<FontClass>,
    q: FontQueryV,
) -> Option<Seq<char>>
    decreases fallback.len(),
{
    if fallback.len() == 0 {
        None
    } else {
        match pure_provs(provs, 0, fallback[0], q) {
            Some(f) => Some(f),
            None => pure_fallback(provs, fallback.drop_first(), q),
        }
    }
}

/// The font a query is bound to be served, as a function of the registered
/// providers and the query alone.
pub open spec fn pure_result<P: FontProvider>(provs: Seq<P>, q: FontQueryV) -> Option<Seq<char>> {
    pure_fallback(provs, q.fallback, q)
}

/// A loader state any call history can reach when providers deliver what
/// they advertise: caches and past resolutions agree with `resolves` and
/// `pure_result`.
pub open spec fn det_state<P: FontProvider>(provs: Seq<P>, m: LoaderModel) -> bool {
    &&& coherent(provs, m.scan_state())
    &&& forall|k: int|
        0 <= k < m.qc.len() ==> pure_result(provs, (#[trigger] m.qc[k]).0) == Some(
            m.store[m.qc[k].1].1,
        )
}

/// A freshly constructed loader is in a deterministic state.
pub proof fn lemma_empty_deterministic<P: FontProvider>(provs: Seq<P>)
    ensures
        det_state(provs, LoaderModel::empty()),
{
}

/// A descriptor no provider before `j` advertises resolves to what provider
/// `j` supplies for it.
proof fn lemma_resolves_at<P: FontProvider>(provs: Seq<P>, j: int, info: FontInfoV)
    requires
        0 <= j < provs.len(),
        provs[j].infos().contains(info),
        provs[j].supply(info) is Some,
        forall|j2: int| 0 <= j2 < j ==> !(#[trigger] provs[j2].infos()).contains(info),
    ensures
        resolves(provs, info) == provs[j].supply(info),
    decreases j,
{
    if j == 0 {
    } else {
        assert(!provs[0].infos().contains(info));
        let rest = provs.drop_first();
        assert(rest[j - 1] == provs[j]);
        assert forall|j2: int| 0 <= j2 < j - 1 implies !(#[trigger] rest[j2].infos()).contains(
            info,
        ) by {
            assert(rest[j2] == provs[j2 + 1]);
        }
        lemma_resolves_at(rest, j - 1, info);
    }
}

/// One listing scanned under delivered-as-advertised providers, from any
/// coherent state whose pass already covered the providers before `j`, ends
/// exactly as the state-free result says, and leaves a coherent state; a
/// miss leaves every viable listed descriptor loaded.
proof fn lemma_det_infos<P: FontProvider>(
    provs: Seq<P>,
    j: int,
    items: Seq<FontInfoV>,
    class: FontClass,
    q: FontQueryV,
    st: ScanState,
)
    requires
        honors_listings(provs),
        st_wf(st),
        coherent(provs, st),
        0 <= j < provs.len(),
        forall|t: int| 0 <= t < items.len() ==> provs[j].infos().contains(#[trigger] items[t]),
        pass_covered(provs, j, class, q, st),
    ensures
        ({
            let oc = scan_infos(provs[j], items, class, q, st);
            &&& st_wf(oc.state())
            &&& coherent(provs, oc.state())
            &&& (match pure_infos(provs, items, class, q) {
                Some(f) => oc matches ScanOutcome::Hit { st: sh, index } && sh.store[index].1 == f,
                None => oc matches ScanOutcome::Miss { st: sm } && (forall|t: int|
                    0 <= t < items.len() && viable(#[trigger] items[t], class, q) ==> alist_find(
                        sm.cache,
                        items[t],
                    ) is Some),
            })
        }),
    decreases items.len(),
{
    if items.len() == 0 {
        return ;
    }
    let p = provs[j];
    let info = items[0];
    let rest = items.drop_first();
    assert(provs[j].infos().contains(items[0]));
    assert forall|t: int| 0 <= t < rest.len() implies provs[j].infos().contains(
        #[trigger] rest[t],
    ) by {
        assert(rest[t] == items[t + 1]);
    }
    if viable(info, class, q) {
        match alist_find(st.cache, info) {
            Some(index) => {
                lemma_find_witness(st.cache, info);
                assert(resolves(provs, info) == Some(st.store[index].1));
                if st.store[index].1.contains(q.character) {
                    assert(pure_infos(provs, items, class, q) == Some(st.store[index].1));
                } else {
                    lemma_det_infos(provs, j, rest, class, q, st);
                    lemma_scan_infos_frame(p, rest, class, q, st);
                    assert(pure_infos(provs, items, class, q) == pure_infos(
                        provs,
                        rest,
                        class,
                        q,
                    ));
                    match pure_infos(provs, rest, class, q) {
                        Some(f) => {}
                        None => {
                            let sm = scan_infos(p, rest, class, q, st).state();
                            assert forall|t: int|
                                0 <= t < items.len() && viable(#[trigger] items[t], class, q)
                                implies alist_find(sm.cache, items[t]) is Some by {
                                if t == 0 {
                                    assert(alist_find(st.cache, info) is Some);
                                } else {
                                    assert(items[t] == rest[t - 1]);
                                }
                            }
                        }
                    }
                }
            }
            None => {
                // Nothing before provider `j` lists this viable descriptor,
                // else it would be cached; so `j`'s supply is what it
                // resolves to, and `j` does supply it.
                assert(p.supply(info) is Some);
                assert forall|j2: int| 0 <= j2 < j implies !(#[trigger] provs[j2].infos()).contains(
                    info,
                ) by {
                    if provs[j2].infos().contains(info) {
                        assert(alist_find(st.cache, info) is Some);
                    }
                }
                lemma_resolves_at(provs, j, info);
                let f0 = p.supply(info)->Some_0;
                assert(resolves(provs, info) == Some(f0));
                let index = st.store.len() as int;
                let st2 = ScanState {
                    store: st.store.push((None, f0)),
                    cache: st.cache.push((info, index)),
                };
                assert(st_wf(st2));
                assert forall|k: int| 0 <= k < st2.cache.len() implies {
                    &&& 0 <= (#[trigger] st2.cache[k]).1 < st2.store.len()
                    &&& resolves(provs, st2.cache[k].0) == Some(st2.store[st2.cache[k].1].1)
                } by {
                    if k < st.cache.len() {
                        assert(st2.cache[k] == st.cache[k]);
                        assert(st2.store[st.cache[k].1] == st.store[st.cache[k].1]);
                    }
                }
                if f0.contains(q.character) {
                    assert(scan_infos(p, items, class, q, st) == (ScanOutcome::Hit {
                        st: st2,
                        index,
                    }));
                    assert(pure_infos(provs, items, class, q) == Some(f0));
                } else {
                    assert forall|j2: int, i2: FontInfoV|
                        0 <= j2 < j && #[trigger] provs[j2].infos().contains(i2) && viable(
                            i2,
                            class,
                            q,
                        ) implies alist_find(st2.cache, i2) is Some by {
                        assert(alist_find(st.cache, i2) is Some);
                        lemma_find_push(st.cache, i2, info, index);
                    }
                    lemma_det_infos(provs, j, rest, class, q, st2);
                    lemma_scan_infos_frame(p, rest, class, q, st2);
                    assert(pure_infos(provs, items, class, q) == pure_infos(
                        provs,
                        rest,
                        class,
                        q,
                    ));
                    match pure_infos(provs, rest, class, q) {
                        Some(f) => {}
                        None => {
                            let sm = scan_infos(p, rest, class, q, st2).state();
                            assert forall|t: int|
                                0 <= t < items.len() && viable(#[trigger] items[t], class, q)
                                implies alist_find(sm.cache, items[t]) is Some by {
                                if t == 0 {
                                    lemma_find_push(st.cache, info, info, index);
                                    assert(alist_find(st2.cache, info) is Some);
                                } else {
                                    assert(items[t] == rest[t - 1]);
                                }
                            }
                        }
                    }
                }
            }
        }
    } else {
        lemma_det_infos(provs, j, rest, class, q, st);
        lemma_scan_infos_frame(p, rest, class, q, st);
        assert(pure_infos(provs, items, class, q) == pure_infos(provs, rest, class, q));
        match pure_infos(provs, rest, class, q) {
            Some(f) => {}
            None => {
                let sm = scan_infos(p, rest, class, q, st).state();
                assert forall|t: int|
                    0 <= t < items.len() && viable(#[trigger] items[t], class, q) implies
                    alist_find(sm.cache, items[t]) is Some by {
                    assert(t != 0);
                    assert(items[t] == rest[t - 1]);
                }
            }
        }
    }
}

/// One class pass from provider position `j` on, under delivered-as-
/// advertised providers and a coherent, covered state, ends as the
/// state-free result says and leaves a coherent state.
proof fn lemma_det_provs<P: FontProvider>(
    provs: Seq<P>,
    j: int,
    class: FontClass,
    q: FontQueryV,
    st: ScanState,
)
    requires
        honors_listings(provs),
        st_wf(st),
        coherent(provs, st),
        0 <= j <= provs.len(),
        pass_covered(provs, j, class, q, st),
    ensures
        ({
            let oc = scan_provs(provs.skip(j), class, q, st);
            &&& st_wf(oc.state())
            &&& coherent(provs, oc.state())
            &&& (match pure_provs(provs, j, class, q) {
                Some(f) => oc matches ScanOutcome::Hit { st: sh, index } && sh.store[index].1 == f,
                None => oc is Miss,
            })
        }),
    decreases provs.len() - j,
{
    if j == provs.len() {
        assert(provs.skip(j) =~= Seq::<P>::empty());
        return ;
    }
    let sub = provs.skip(j);
    assert(sub[0] == provs[j]);
    assert(sub.drop_first() =~= provs.skip(j + 1));
    assert forall|t: int| 0 <= t < provs[j].infos().len() implies provs[j].infos().contains(
        #[trigger] provs[j].infos()[t],
    ) by {
    }
    lemma_det_infos(provs, j, provs[j].infos(), class, q, st);
    match scan_infos(provs[j], provs[j].infos(), class, q, st) {
        ScanOutcome::Hit { st: sh, index } => {
            assert(pure_infos(provs, provs[j].infos(), class, q) is Some);
        }
        ScanOutcome::Miss { st: sm } => {
            assert(pure_infos(provs, provs[j].infos(), class, q) is None);
            lemma_scan_infos_frame(provs[j], provs[j].infos(), class, q, st);
            assert forall|j2: int, info: FontInfoV|
                0 <= j2 < j + 1 && #[trigger] provs[j2].infos().contains(info) && viable(
                    info,
                    class,
                    q,
                ) implies alist_find(sm.cache, info) is Some by {
                if j2 < j {
                    assert(alist_find(st.cache, info) is Some);
                } else {
                    let t = choose|t: int|
                        0 <= t < provs[j].infos().len() && provs[j].infos()[t] == info;
                    assert(viable(provs[j].infos()[t], class, q));
                }
            }
            lemma_det_provs(provs, j + 1, class, q, sm);
        }
    }
}

/// A whole scan from a coherent state, under delivered-as-advertised
/// providers, ends as the state-free result says and stays coherent.
proof fn lemma_det_fallback<P: FontProvider>(
    provs: Seq<P>,
    fallback: Seq<FontClass>,
    q: FontQueryV,
    st: ScanState,
)
    requires
        honors_listings(provs),
        st_wf(st),
        coherent(provs, st),
    ensures
        ({
            let oc = scan_fallback(provs, fallback, q, st);
            &&& st_wf(oc.state())
            &&& coherent(provs, oc.state())
            &&& (match pure_fallback(provs, fallback, q) {
                Some(f) => oc matches ScanOutcome::Hit { st: sh, index } && sh.store[index].1 == f,
                None => oc is Miss,
            })
        }),
    decreases fallback.len(),
{
    if fallback.len() == 0 {
        return ;
    }
    assert(provs.skip(0) =~= provs);
    lemma_det_provs(provs, 0, fallback[0], q, st);
    match scan_provs(provs, fallback[0], q, st) {
        ScanOutcome::Hit { .. } => {
            assert(pure_provs(provs, 0, fallback[0], q) is Some);
        }
        ScanOutcome::Miss { st: sm } => {
            assert(pure_provs(provs, 0, fallback[0], q) is None);
            lemma_det_fallback(provs, fallback.drop_first(), q, sm);
        }
    }
}

/// Determinism under fixed registration order: with providers that deliver
/// what they advertise, the font `get` serves is a function of the
/// registered providers and the query alone — `pure_result` — whatever calls
/// came before; cache warm-up can change the cost, never the font. The
/// deterministic-state invariant holds of a fresh loader and survives every
/// call.
pub proof fn lemma_get_deterministic<P: FontProvider>(
    provs: Seq<P>,
    m: LoaderModel,
    q: FontQueryV,
)
    requires
        honors_listings(provs),
        model_wf(m),
        det_state(provs, m),
    ensures
        ({
            let r = get_spec(provs, m, q).1;
            match pure_result(provs, q) {
                Some(f) => r matches Some(sv) && sv.1 == f,
                None => r is None,
            }
        }),
        det_state(provs, get_spec(provs, m, q).0),
{
    match alist_find(m.qc, q) {
        Some(i) => {
            lemma_find_witness(m.qc, q);
            assert(pure_result(provs, q) == Some(m.store[i].1));
        }
        None => {
            assert(st_wf(m.scan_state()));
            lemma_det_fallback(provs, q.fallback, q, m.scan_state());
            lemma_scan_fallback_frame(provs, q.fallback, q, m.scan_state());
            match scan_fallback(provs, q.fallback, q, m.scan_state()) {
                ScanOutcome::Miss { st } => {
                    assert(pure_fallback(provs, q.fallback, q) is None);
                    let m1 = get_spec(provs, m, q).0;
                    assert(m1.scan_state() =~= st);
                    assert forall|k: int| 0 <= k < m1.qc.len() implies pure_result(
                        provs,
                        (#[trigger] m1.qc[k]).0,
                    ) == Some(m1.store[m1.qc[k].1].1) by {
                        assert(m1.qc[k] == m.qc[k]);
                        assert(m1.store[m.qc[k].1] == m.store[m.qc[k].1]);
                    }
                }
                ScanOutcome::Hit { st, index } => {
                    let f = pure_fallback(provs, q.fallback, q)->Some_0;
                    assert(st.store[index].1 == f);
                    let mi = LoaderModel { store: st.store, ic: st.cache, qc: m.qc, ext: m.ext };
                    let m1 = commit_spec(mi, q, index).0;
                    assert(m1.store[index].1 == f);
                    assert forall|i2: int| 0 <= i2 < st.store.len() implies m1.store[i2].1
                        == st.store[i2].1 by {
                    }
                    assert(coherent(provs, m1.scan_state())) by {
                        assert forall|k: int| 0 <= k < m1.ic.len() implies {
                            &&& 0 <= (#[trigger] m1.ic[k]).1 < m1.store.len()
                            &&& resolves(provs, m1.ic[k].0) == Some(m1.store[m1.ic[k].1].1)
                        } by {
                            assert(m1.ic[k] == st.cache[k]);
                            assert(m1.store[st.cache[k].1].1 == st.store[st.cache[k].1].1);
                        }
                    }
                    assert forall|k: int| 0 <= k < m1.qc.len() implies pure_result(
                        provs,
                        (#[trigger] m1.qc[k]).0,
                    ) == Some(m1.store[m1.qc[k].1].1) by {
                        if k < m.qc.len() {
                            assert(m1.qc[k] == m.qc[k]);
                            assert(m.store[m.qc[k].1] == st.store[m.qc[k].1]);
                            assert(m1.store[m.qc[k].1].1 == st.store[m.qc[k].1].1);
                        } else {
                            assert(m1.qc[k] == (q, index));
                        }
                    }
                }
            }
        }
    }
}

/// Distinctness of descriptor-cache keys survives a scan: helper pulling the
/// pairwise statement out of the frame's find-stability.
proof fn lemma_scan_cache_distinct<P: FontProvider>(
    provs: Seq<P>,
    q: FontQueryV,
    st: ScanState,
    st2: ScanState,
    k1: int,
    k2: int,
)
    requires
        forall|x1: int, x2: int| 0 <= x1 < x2 < st.cache.len() ==> st.cache[x1].0 != st.cache[x2].0,
        st2 == scan_fallback(provs, q.fallback, q, st).state(),
        0 <= k1 < k2 < st2.cache.len(),
    ensures
        st2.cache[k1].0 != st2.cache[k2].0,
{
    lemma_scan_fallback_distinct(provs, q.fallback, q, st);
}

/// Pairwise distinctness of cache keys is preserved by every scan level.
proof fn lemma_scan_infos_distinct<P: FontProvider>(
    p: P,
    items: Seq<FontInfoV>,
    class: FontClass,
    q: FontQueryV,
    st: ScanState,
)
    requires
        forall|x1: int, x2: int| 0 <= x1 < x2 < st.cache.len() ==> st.cache[x1].0 != st.cache[x2].0,
    ensures
        ({
            let c2 = scan_infos(p, items, class, q, st).state().cache;
            forall|x1: int, x2: int| 0 <= x1 < x2 < c2.len() ==> c2[x1].0 != c2[x2].0
        }),
    decreases items.len(),
{
    if items.len() == 0 {
    } else {
        let info = items[0];
        let rest = items.drop_first();
        if viable(info, class, q) {
            match alist_find(st.cache, info) {
                Some(index) => {
                    if st.store[index].1.contains(q.character) {
                    } else {
                        lemma_scan_infos_distinct(p, rest, class, q, st);
                    }
                }
                None => {
                    match p.supply(info) {
                        Some(f) => {
                            let index = st.store.len() as int;
                            let st2 = ScanState {
                                store: st.store.push((None, f)),
                                cache: st.cache.push((info, index)),
                            };
                            lemma_find_witness(st.cache, info);
                            assert forall|x1: int, x2: int| 0 <= x1 < x2 < st2.cache.len() implies
                                st2.cache[x1].0 != st2.cache[x2].0 by {
                                if x2 == st2.cache.len() - 1 {
                                    assert(st2.cache[x1] == st.cache[x1]);
                                }
                            }
                            if f.contains(q.character) {
                            } else {
                                lemma_scan_infos_distinct(p, rest, class, q, st2);
                            }
                        }
                        None => {
                            lemma_scan_infos_distinct(p, rest, class, q, st);
                        }
                    }
                }
            }
        } else {
            lemma_scan_infos_distinct(p, rest, class, q, st);
        }
    }
}

proof fn lemma_scan_provs_distinct<P: FontProvider>(
    provs: Seq<P>,
    class: FontClass,
    q: FontQueryV,
    st: ScanState,
)
    requires
        forall|x1: int, x2: int| 0 <= x1 < x2 < st.cache.len() ==> st.cache[x1].0 != st.cache[x2].0,
    ensures
        ({
            let c2 = scan_provs(provs, class, q, st).state().cache;
            forall|x1: int, x2: int| 0 <= x1 < x2 < c2.len() ==> c2[x1].0 != c2[x2].0
        }),
    decreases provs.len(),
{
    if provs.len() == 0 {
    } else {
        lemma_scan_infos_distinct(provs[0], provs[0].infos(), class, q, st);
        match scan_infos(provs[0], provs[0].infos(), class, q, st) {
            ScanOutcome::Hit { .. } => {}
            ScanOutcome::Miss { st: st2 } => {
                assert(scan_infos(provs[0], provs[0].infos(), class, q, st).state() == st2);
                lemma_scan_provs_distinct(provs.drop_first(), class, q, st2);
            }
        }
    }
}

proof fn lemma_scan_fallback_distinct<P: FontProvider>(
    provs: Seq<P>,
    fallback: Seq<FontClass>,
    q: FontQueryV,
    st: ScanState,
)
    requires
        forall|x1: int, x2: int| 0 <= x1 < x2 < st.cache.len() ==> st.cache[x1].0 != st.cache[x2].0,
    ensures
        ({
            let c2 = scan_fallback(provs, fallback, q, st).state().cache;
            forall|x1: int, x2: int| 0 <= x1 < x2 < c2.len() ==> c2[x1].0 != c2[x2].0
        }),
    decreases fallback.len(),
{
    if fallback.len() == 0 {
    } else {
        lemma_scan_provs_distinct(provs, fallback[0], q, st);
        match scan_provs(provs, fallback[0], q, st) {
            ScanOutcome::Hit { .. } => {}
            ScanOutcome::Miss { st: st2 } => {
                assert(scan_provs(provs, fallback[0], q, st).state() == st2);
                lemma_scan_fallback_distinct(provs, fallback.drop_first(), q, st2);
            }
        }
    }
}

} // verus!
