//! The font loader: resolves queries against registered providers, caching
//! parsed fonts by descriptor, resolved queries by query, and assigning each
//! served font a stable external index on first serve.

use vstd::prelude::*;
use crate::assoc::{alist_find, lemma_find_witness, lemma_find_skip};
use crate::font::{
    Font, FontClass, FontInfo, FontInfoV, FontQuery, FontQueryV, classes_subset, contains_class,
    info_eq, query_eq,
};
use crate::provider::FontProvider;

verus! {

/// The part of the loader's state that a scan threads along: the append-only
/// font store (external index, characters) and the descriptor cache.
#[verifier::ext_equal]
pub struct ScanState {
    pub store: Seq<(Option<int>, Seq<char>)>,
    pub cache: Seq<(FontInfoV, int)>,
}

/// How a scan ends: a store index whose font matched, or exhaustion; either
/// way the state as the scan left it.
pub enum ScanOutcome {
    Hit { st: ScanState, index: int },
    Miss { st: ScanState },
}

impl ScanOutcome {
    /// The state the scan left, whichever way it ended.
    pub open spec fn state(self) -> ScanState {
        match self {
            ScanOutcome::Hit { st, .. } => st,
            ScanOutcome::Miss { st } => st,
        }
    }
}

/// Whether a descriptor can serve the query under the fallback class `class`:
/// its classes must hold `class` and every required class of the query.
pub open spec fn viable(info: FontInfoV, class: FontClass, q: FontQueryV) -> bool {
    &&& info.classes.contains(class)
    &&& forall|j: int| 0 <= j < q.classes.len() ==> info.classes.contains(#[trigger] q.classes[j])
}

/// One provider's advertised descriptors, scanned in listing order under one
/// fallback class. A viable descriptor's font is taken from the cache if
/// present, else fetched (`supply`); a declined fetch is skipped. The first
/// font covering the query's character is the hit.
pub open spec fn scan_infos<P: FontProvider>(
    p: P,
    items: Seq<FontInfoV>,
    class: FontClass,
    q: FontQueryV,
    st: ScanState,
) -> ScanOutcome
    decreases items.len(),
{
    if items.len() == 0 {
        ScanOutcome::Miss { st }
    } else {
        let info = items[0];
        let rest = items.drop_first();
        if viable(info, class, q) {
            match alist_find(st.cache, info) {
                Some(index) => {
                    if st.store[index].1.contains(q.character) {
                        ScanOutcome::Hit { st, index }
                    } else {
                        scan_infos(p, rest, class, q, st)
                    }
                }
                None => {
                    match p.supply(info) {
                        Some(f) => {
                            let index = st.store.len() as int;
                            let st2 = ScanState {
                                store: st.store.push((None, f)),
                                cache: st.cache.push((info, index)),
                            };
                            if f.contains(q.character) {
                                ScanOutcome::Hit { st: st2, index }
                            } else {
                                scan_infos(p, rest, class, q, st2)
                            }
                        }
                        None => scan_infos(p, rest, class, q, st),
                    }
                }
            }
        } else {
            scan_infos(p, rest, class, q, st)
        }
    }
}

/// All providers in registration order, under one fallback class.
pub open spec fn scan_provs<P: FontProvider>(
    provs: Seq<P>,
    class: FontClass,
    q: FontQueryV,
    st: ScanState,
) -> ScanOutcome
    decreases provs.len(),
{
    if provs.len() == 0 {
        ScanOutcome::Miss { st }
    } else {
        match scan_infos(provs[0], provs[0].infos(), class, q, st) {
            ScanOutcome::Hit { st, index } => ScanOutcome::Hit { st, index },
            ScanOutcome::Miss { st } => scan_provs(provs.drop_first(), class, q, st),
        }
    }
}

/// The fallback classes in priority order: all providers are exhausted under
/// an earlier class before a later class is tried.
pub open spec fn scan_fallback<P: FontProvider>(
    provs: Seq<P>,
    fallback: Seq<FontClass>,
    q: FontQueryV,
    st: ScanState,
) -> ScanOutcome
    decreases fallback.len(),
{
    if fallback.len() == 0 {
        ScanOutcome::Miss { st }
    } else {
        match scan_provs(provs, fallback[0], q, st) {
            ScanOutcome::Hit { st, index } => ScanOutcome::Hit { st, index },
            ScanOutcome::Miss { st } => scan_fallback(provs, fallback.drop_first(), q, st),
        }
    }
}

/// Continues a scan outcome with the remaining providers of the same class.
pub open spec fn cont_provs<P: FontProvider>(
    rest: Seq<P>,
    class: FontClass,
    q: FontQueryV,
    oc: ScanOutcome,
) -> ScanOutcome {
    match oc {
        ScanOutcome::Hit { .. } => oc,
        ScanOutcome::Miss { st } => scan_provs(rest, class, q, st),
    }
}

/// Continues a scan outcome with the remaining fallback classes.
pub open spec fn cont_fallback<P: FontProvider>(
    provs: Seq<P>,
    rest: Seq<FontClass>,
    q: FontQueryV,
    oc: ScanOutcome,
) -> ScanOutcome {
    match oc {
        ScanOutcome::Hit { .. } => oc,
        ScanOutcome::Miss { st } => scan_fallback(provs, rest, q, st),
    }
}

/// The mathematical value of a loader's mutable state.
#[verifier::ext_equal]
pub struct LoaderModel {
    /// Append-only font store: external index (if assigned) and characters,
    /// indexed by internal index.
    pub store: Seq<(Option<int>, Seq<char>)>,
    /// Resolved queries, each bound to the internal index it was served from.
    pub qc: Seq<(FontQueryV, int)>,
    /// Descriptors whose font was loaded, bound to the internal index.
    pub ic: Seq<(FontInfoV, int)>,
    /// External index to internal index, in order of assignment.
    pub ext: Seq<int>,
}

impl LoaderModel {
    /// A loader's state before anything was loaded or served.
    pub open spec fn empty() -> LoaderModel {
        LoaderModel { store: Seq::empty(), qc: Seq::empty(), ic: Seq::empty(), ext: Seq::empty() }
    }

    /// The scan-relevant part of the state.
    pub open spec fn scan_state(self) -> ScanState {
        ScanState { store: self.store, cache: self.ic }
    }
}

/// Internal consistency of a loader's state: cache entries point into the
/// store; cached queries reference served entries whose font covers their
/// character and whose fallback list is nonempty; external and internal
/// indices determine each other; cache keys are unique.
pub open spec fn model_wf(m: LoaderModel) -> bool {
    &&& forall|k: int|
        0 <= k < m.qc.len() ==> {
            let e = #[trigger] m.qc[k];
            &&& 0 <= e.1 < m.store.len()
            &&& m.store[e.1].0 is Some
            &&& m.store[e.1].1.contains(e.0.character)
            &&& e.0.fallback.len() > 0
        }
    &&& forall|k1: int, k2: int| 0 <= k1 < k2 < m.qc.len() ==> m.qc[k1].0 != m.qc[k2].0
    &&& forall|k: int| 0 <= k < m.ic.len() ==> 0 <= (#[trigger] m.ic[k]).1 < m.store.len()
    &&& forall|k1: int, k2: int| 0 <= k1 < k2 < m.ic.len() ==> m.ic[k1].0 != m.ic[k2].0
    &&& forall|e: int|
        0 <= e < m.ext.len() ==> 0 <= #[trigger] m.ext[e] < m.store.len() && m.store[m.ext[e]].0
            == Some(e)
    &&& forall|i: int|
        0 <= i < m.store.len() ==> ((#[trigger] m.store[i]).0 matches Some(e) ==> 0 <= e
            < m.ext.len() && m.ext[e] == i)
}

/// Committing a hit at store entry `index`: the query joins the query cache,
/// and the entry's external index — assigned now if it never served — is
/// returned with the font's characters.
pub open spec fn commit_spec(m: LoaderModel, q: FontQueryV, index: int) -> (
    LoaderModel,
    (int, Seq<char>),
) {
    let qc2 = m.qc.push((q, index));
    match m.store[index].0 {
        Some(e) => (
            LoaderModel { store: m.store, ic: m.ic, qc: qc2, ext: m.ext },
            (e, m.store[index].1),
        ),
        None => {
            let e = m.ext.len() as int;
            (
                LoaderModel {
                    store: m.store.update(index, (Some(e), m.store[index].1)),
                    ic: m.ic,
                    qc: qc2,
                    ext: m.ext.push(index),
                },
                (e, m.store[index].1),
            )
        }
    }
}

/// What one `get` call does, as a function of the registered providers, the
/// state, and the query: the resulting state and the served external index
/// and font characters, if any.
pub open spec fn get_spec<P: FontProvider>(provs: Seq<P>, m: LoaderModel, q: FontQueryV) -> (
    LoaderModel,
    Option<(int, Seq<char>)>,
) {
    match alist_find(m.qc, q) {
        Some(i) => (
            m,
            match m.store[i].0 {
                Some(e) => Some((e, m.store[i].1)),
                None => None,
            },
        ),
        None => match scan_fallback(provs, q.fallback, q, m.scan_state()) {
            ScanOutcome::Miss { st } => (
                LoaderModel { store: st.store, ic: st.cache, qc: m.qc, ext: m.ext },
                None,
            ),
            ScanOutcome::Hit { st, index } => {
                let (m2, sv) = commit_spec(
                    LoaderModel { store: st.store, ic: st.cache, qc: m.qc, ext: m.ext },
                    q,
                    index,
                );
                (m2, Some(sv))
            }
        },
    }
}

/// The internal store index one `get` call serves from, if any.
pub open spec fn get_index<P: FontProvider>(
    provs: Seq<P>,
    m: LoaderModel,
    q: FontQueryV,
) -> Option<int> {
    match alist_find(m.qc, q) {
        Some(i) => Some(i),
        None => match scan_fallback(provs, q.fallback, q, m.scan_state()) {
            ScanOutcome::Hit { index, .. } => Some(index),
            ScanOutcome::Miss { .. } => None,
        },
    }
}

/// Converts a stored external index to its mathematical value.
pub open spec fn opt_int(o: Option<usize>) -> Option<int> {
    match o {
        Some(u) => Some(u as int),
        None => None,
    }
}

/// Serves fonts matching queries from an ordered list of registered
/// providers, deduplicating loads and resolutions through its caches.
#[derive(Debug)]
pub struct FontLoader<P: FontProvider> {
    /// The font providers, in registration (priority) order.
    providers: Vec<P>,
    /// The loaded fonts alongside their external indices. A font may lack an
    /// external index: it was loaded but never served.
    fonts: Vec<(Option<usize>, Font)>,
    /// Resolved queries, each bound to the internal index it was served from.
    query_cache: Vec<(FontQuery, usize)>,
    /// Loaded fonts by their descriptor, to avoid loading them again.
    info_cache: Vec<(FontInfo, usize)>,
    /// Indexed by external indices, maps to internal indices into `fonts`.
    inner_index: Vec<usize>,
}

impl<P: FontProvider> FontLoader<P> {
    /// The registered providers.
    pub closed spec fn provs(&self) -> Seq<P> {
        self.providers@
    }

    /// The loader's state as a mathematical value.
    pub closed spec fn model(&self) -> LoaderModel {
        LoaderModel {
            store: self.fonts@.map_values(|r: (Option<usize>, Font)| (opt_int(r.0), r.1@)),
            qc: self.query_cache@.map_values(|e: (FontQuery, usize)| (e.0@, e.1 as int)),
            ic: self.info_cache@.map_values(|e: (FontInfo, usize)| (e.0@, e.1 as int)),
            ext: self.inner_index@.map_values(|u: usize| u as int),
        }
    }

    /// Internal consistency; established by `new` and kept by every method.
    pub open spec fn wf(&self) -> bool {
        model_wf(self.model())
    }

    /// Create a new font loader.
    pub fn new() -> (r: FontLoader<P>)
        ensures
            r.wf(),
            r.provs() == Seq::<P>::empty(),
            r.model() == LoaderModel::empty(),
    {
        let r = FontLoader {
            providers: Vec::new(),
            fonts: Vec::new(),
            query_cache: Vec::new(),
            info_cache: Vec::new(),
            inner_index: Vec::new(),
        };
        proof {
            assert(r.model() =~= LoaderModel::empty());
        }
        r
    }

    /// Add a font provider to this loader. Registration order is priority
    /// order; providers are not deduplicated.
    pub fn add_font_provider(&mut self, provider: P)
        requires
            old(self).wf(),
        ensures
            final(self).wf(),
            final(self).provs() == old(self).provs().push(provider),
            final(self).model() == old(self).model(),
    {
        self.providers.push(provider);
        proof {
            assert(final(self).model() =~= old(self).model());
        }
    }

    /// Looks a query up in the query cache.
    #[verifier::loop_isolation(false)]
    fn find_query(&self, q: &FontQuery) -> (r: Option<usize>)
        ensures
            match r {
                Some(u) => alist_find(self.model().qc, q@) == Some(u as int),
                None => alist_find(self.model().qc, q@) is None,
            },
    {
        let ghost s = self.model().qc;
        let mut i: usize = 0;
        while i < self.query_cache.len()
            invariant
                i <= self.query_cache@.len(),
                forall|j: int| 0 <= j < i ==> (#[trigger] s[j]).0 != q@,
            decreases self.query_cache@.len() - i,
        {
            if query_eq(&self.query_cache[i].0, q) {
                proof {
                    lemma_find_skip(s, q@, i as int);
                    assert(s.skip(i as int)[0] == s[i as int]);
                    assert(alist_find(s, q@) == Some(s[i as int].1));
                }
                return Some(self.query_cache[i].1);
            }
            i += 1;
        }
        proof {
            lemma_find_skip(s, q@, s.len() as int);
            assert(s.skip(s.len() as int) =~= Seq::<(FontQueryV, int)>::empty());
        }
        None
    }

    /// Looks a descriptor up in the descriptor cache.
    #[verifier::loop_isolation(false)]
    fn find_info(&self, info: &FontInfo) -> (r: Option<usize>)
        ensures
            match r {
                Some(u) => alist_find(self.model().ic, info@) == Some(u as int),
                None => alist_find(self.model().ic, info@) is None,
            },
    {
        let ghost s = self.model().ic;
        let mut i: usize = 0;
        while i < self.info_cache.len()
            invariant
                i <= self.info_cache@.len(),
                forall|j: int| 0 <= j < i ==> (#[trigger] s[j]).0 != info@,
            decreases self.info_cache@.len() - i,
        {
            if info_eq(&self.info_cache[i].0, info) {
                proof {
                    lemma_find_skip(s, info@, i as int);
                    assert(s.skip(i as int)[0] == s[i as int]);
                    assert(alist_find(s, info@) == Some(s[i as int].1));
                }
                return Some(self.info_cache[i].1);
            }
            i += 1;
        }
        proof {
            lemma_find_skip(s, info@, s.len() as int);
            assert(s.skip(s.len() as int) =~= Seq::<(FontInfoV, int)>::empty());
        }
        None
    }

    /// Returns the external index and a copy of the font best matching the
    /// query, if there is any: a cached resolution of an equal query, else
    /// the first font found by scanning fallback classes (outermost), then
    /// providers in registration order, then each provider's advertised
    /// descriptors in listing order, that is viable for the query, can be
    /// obtained, and covers the query's character.
    ///
    /// A viable candidate whose font cannot be delivered — the provider
    /// declines, or fails to produce a parsed font — is skipped and the scan
    /// continues; one bad candidate never masks a later fallback match.
    /// Fonts loaded during a fruitless scan stay cached for later queries.
    #[verifier::loop_isolation(false)]
    pub fn get(&mut self, query: FontQuery) -> (r: Option<(usize, Font)>)
        requires
            old(self).wf(),
        ensures
            final(self).wf(),
            final(self).provs() == old(self).provs(),
            ({
                let (m2, res) = get_spec(old(self).provs(), old(self).model(), query@);
                &&& final(self).model() == m2
                &&& (match r {
                    Some(p) => res matches Some(sv) && sv.0 == p.0 as int && sv.1 == p.1@,
                    None => res is None,
                })
            }),
    {
        let ghost provs = self.providers@;
        let ghost q = query@;
        let ghost m0 = self.model();

        // Load the result from the cache, if we had an equal query before.
        if let Some(i) = self.find_query(&query) {
            proof {
                lemma_find_witness(m0.qc, q);
                assert(m0.store[i as int] == (
                    opt_int(self.fonts@[i as int].0),
                    self.fonts@[i as int].1@,
                ));
            }
            // The font has an external index already: it has been served before.
            let e = self.fonts[i].0.unwrap();
            let f = self.fonts[i].1.clone();
            return Some((e, f));
        }

        let ghost st0 = m0.scan_state();
        let ghost target = scan_fallback(provs, q.fallback, q, st0);
        proof {
            assert(q.fallback.skip(0) =~= q.fallback);
        }

        // The outermost loop goes over the fallback classes: the font
        // matching the earliest possible class is served.
        let mut ci: usize = 0;
        while ci < query.fallback.len()
            invariant
                self.wf(),
                self.providers@ == provs,
                self.model().qc == m0.qc,
                self.model().ext == m0.ext,
                ci <= query.fallback@.len(),
                scan_fallback(provs, q.fallback.skip(ci as int), q, self.model().scan_state())
                    == target,
            decreases query.fallback@.len() - ci,
        {
            let class = query.fallback[ci];
            proof {
                assert(q.fallback.skip(ci as int)[0] == class);
                assert(q.fallback.skip(ci as int).drop_first() =~= q.fallback.skip(ci as int + 1));
                assert(provs.skip(0) =~= provs);
            }
            // For each class, go over all fonts from all font providers.
            let mut pj: usize = 0;
            while pj < self.providers.len()
                invariant
                    self.wf(),
                    self.providers@ == provs,
                    self.model().qc == m0.qc,
                    self.model().ext == m0.ext,
                    ci < query.fallback@.len(),
                    class == q.fallback[ci as int],
                    pj <= provs.len(),
                    cont_fallback(
                        provs,
                        q.fallback.skip(ci as int + 1),
                        q,
                        scan_provs(provs.skip(pj as int), class, q, self.model().scan_state()),
                    ) == target,
                decreases provs.len() - pj,
            {
                let ghost pv = provs[pj as int];
                let infos = self.providers[pj].available();
                proof {
                    assert(provs.skip(pj as int)[0] == pv);
                    assert(provs.skip(pj as int).drop_first() =~= provs.skip(pj as int + 1));
                    assert(pv.infos().skip(0) =~= pv.infos());
                    assert(infos@.len() == pv.infos().len());
                    assert forall|j: int| 0 <= j < infos@.len() implies (#[trigger] infos@[j])@
                        == pv.infos()[j] by {
                        assert(infos@.map_values(|i: FontInfo| i@)[j] == infos@[j]@);
                    }
                }
                let mut k: usize = 0;
                while k < infos.len()
                    invariant
                        self.wf(),
                        self.providers@ == provs,
                        self.model().qc == m0.qc,
                        self.model().ext == m0.ext,
                        ci < query.fallback@.len(),
                        class == q.fallback[ci as int],
                        pj < provs.len(),
                        pv == provs[pj as int],
                        infos@.len() == pv.infos().len(),
                        forall|j: int| 0 <= j < infos@.len() ==> (#[trigger] infos@[j])@
                            == pv.infos()[j],
                        k <= infos@.len(),
                        cont_fallback(
                            provs,
                            q.fallback.skip(ci as int + 1),
                            q,
                            cont_provs(
                                provs.skip(pj as int + 1),
                                class,
                                q,
                                scan_infos(
                                    pv,
                                    pv.infos().skip(k as int),
                                    class,
                                    q,
                                    self.model().scan_state(),
                                ),
                            ),
                        ) == target,
                    decreases infos@.len() - k,
                {
                    let info = &infos[k];
                    let ghost iv = pv.infos()[k as int];
                    let ghost st_pre = self.model().scan_state();
                    proof {
                        assert(info@ == iv);
                        assert(pv.infos().skip(k as int)[0] == iv);
                        assert(pv.infos().skip(k as int).drop_first() =~= pv.infos().skip(
                            k as int + 1,
                        ));
                    }
                    let vb = contains_class(&info.classes, class) && classes_subset(
                        &query.classes,
                        &info.classes,
                    );
                    proof {
                        assert(iv.classes == info.classes@);
                        assert(q.classes == query.classes@);
                        assert(vb == (info.classes@.contains(class) && (forall|j: int|
                            0 <= j < query.classes@.len() ==> info.classes@.contains(
                                #[trigger] query.classes@[j],
                            ))));
                        assert(vb == viable(iv, class, q));
                    }
                    if vb {
                        match self.find_info(info) {
                            Some(idx) => {
                                proof {
                                    lemma_find_witness(st_pre.cache, iv);
                                    assert(st_pre.store[idx as int] == (
                                        opt_int(self.fonts@[idx as int].0),
                                        self.fonts@[idx as int].1@,
                                    ));
                                }
                                let has = self.fonts[idx].1.supports(query.character);
                                if has {
                                    proof {
                                        assert(scan_infos(
                                            pv,
                                            pv.infos().skip(k as int),
                                            class,
                                            q,
                                            st_pre,
                                        ) == ScanOutcome::Hit { st: st_pre, index: idx as int });
                                        assert(target == ScanOutcome::Hit {
                                            st: st_pre,
                                            index: idx as int,
                                        });
                                        assert(self.model() =~= LoaderModel {
                                            store: st_pre.store,
                                            ic: st_pre.cache,
                                            qc: m0.qc,
                                            ext: m0.ext,
                                        });
                                        assert(get_spec(provs, m0, q) == (
                                            commit_spec(self.model(), q, idx as int).0,
                                            Some(commit_spec(self.model(), q, idx as int).1),
                                        ));
                                    }
                                    let served = self.commit(query, idx);
                                    return Some(served);
                                } else {
                                    proof {
                                        assert(scan_infos(
                                            pv,
                                            pv.infos().skip(k as int),
                                            class,
                                            q,
                                            st_pre,
                                        ) == scan_infos(
                                            pv,
                                            pv.infos().skip(k as int + 1),
                                            class,
                                            q,
                                            st_pre,
                                        ));
                                    }
                                }
                            }
                            None => {
                                match self.providers[pj].fetch(info) {
                                    Some(font) => {
                                        let ghost fv = font@;
                                        let has = font.supports(query.character);
                                        let idx = self.fonts.len();
                                        self.info_cache.push((info.clone(), idx));
                                        self.fonts.push((None, font));
                                        proof {
                                            lemma_find_witness(st_pre.cache, iv);
                                            assert(self.model().ic =~= st_pre.cache.push((
                                                iv,
                                                idx as int,
                                            )));
                                            assert(self.model().store =~= st_pre.store.push((
                                                None,
                                                fv,
                                            )));
                                            assert(self.model().qc =~= m0.qc);
                                            assert(self.model().ext =~= m0.ext);
                                            let st2 = ScanState {
                                                store: st_pre.store.push((None, fv)),
                                                cache: st_pre.cache.push((iv, idx as int)),
                                            };
                                            assert(self.model().scan_state() =~= st2);
                                            assert(model_wf(self.model())) by {
                                                let m = self.model();
                                                assert forall|x1: int, x2: int|
                                                    0 <= x1 < x2 < m.ic.len() implies m.ic[x1].0
                                                    != m.ic[x2].0 by {
                                                    if x2 == m.ic.len() - 1 {
                                                        assert(m.ic[x1] == st_pre.cache[x1]);
                                                    }
                                                }
                                            }
                                            if has {
                                                assert(scan_infos(
                                                    pv,
                                                    pv.infos().skip(k as int),
                                                    class,
                                                    q,
                                                    st_pre,
                                                ) == ScanOutcome::Hit { st: st2, index: idx as int });
                                                assert(target == ScanOutcome::Hit {
                                                    st: st2,
                                                    index: idx as int,
                                                });
                                                assert(self.model() =~= LoaderModel {
                                                    store: st2.store,
                                                    ic: st2.cache,
                                                    qc: m0.qc,
                                                    ext: m0.ext,
                                                });
                                                assert(get_spec(provs, m0, q) == (
                                                    commit_spec(self.model(), q, idx as int).0,
                                                    Some(commit_spec(self.model(), q, idx as int).1),
                                                ));
                                            } else {
                                                assert(scan_infos(
                                                    pv,
                                                    pv.infos().skip(k as int),
                                                    class,
                                                    q,
                                                    st_pre,
                                                ) == scan_infos(
                                                    pv,
                                                    pv.infos().skip(k as int + 1),
                                                    class,
                                                    q,
                                                    st2,
                                                ));
                                            }
                                        }
                                        if has {
                                            let served = self.commit(query, idx);
                                            return Some(served);
                                        }
                                    }
                                    None => {
                                        proof {
                                            assert(scan_infos(
                                                pv,
                                                pv.infos().skip(k as int),
                                                class,
                                                q,
                                                st_pre,
                                            ) == scan_infos(
                                                pv,
                                                pv.infos().skip(k as int + 1),
                                                class,
                                                q,
                                                st_pre,
                                            ));
                                        }
                                    }
                                }
                            }
                        }
                    } else {
                        proof {
                            assert(scan_infos(pv, pv.infos().skip(k as int), class, q, st_pre)
                                == scan_infos(
                                pv,
                                pv.infos().skip(k as int + 1),
                                class,
                                q,
                                st_pre,
                            ));
                        }
                    }
                    k += 1;
                }
                proof {
                    assert(pv.infos().skip(infos@.len() as int) =~= Seq::<FontInfoV>::empty());
                    assert(scan_infos(
                        pv,
                        pv.infos().skip(infos@.len() as int),
                        class,
                        q,
                        self.model().scan_state(),
                    ) == ScanOutcome::Miss { st: self.model().scan_state() });
                }
                pj += 1;
            }
            proof {
                assert(provs.skip(provs.len() as int) =~= Seq::<P>::empty());
                assert(scan_provs(
                    provs.skip(provs.len() as int),
                    class,
                    q,
                    self.model().scan_state(),
                ) == ScanOutcome::Miss { st: self.model().scan_state() });
            }
            ci += 1;
        }
        // Not a single match.
        proof {
            assert(q.fallback.skip(q.fallback.len() as int) =~= Seq::<FontClass>::empty());
            assert(target == ScanOutcome::Miss { st: self.model().scan_state() });
            let (m2, res) = get_spec(provs, m0, q);
            assert(self.model() =~= m2);
        }
        None
    }

    /// Serves the store entry `idx` for `query`: caches the resolution,
    /// assigns an external index if the entry never served before, and hands
    /// out the index with a copy of the font.
    fn commit(&mut self, query: FontQuery, idx: usize) -> (r: (usize, Font))
        requires
            old(self).wf(),
            (idx as int) < old(self).model().store.len(),
            old(self).model().store[idx as int].1.contains(query@.character),
            alist_find(old(self).model().qc, query@) is None,
            query@.fallback.len() > 0,
        ensures
            final(self).wf(),
            final(self).provs() == old(self).provs(),
            ({
                let (m2, sv) = commit_spec(old(self).model(), query@, idx as int);
                &&& final(self).model() == m2
                &&& sv.0 == r.0 as int
                &&& sv.1 == r.1@
            }),
    {
        let ghost m0 = self.model();
        let ghost q = query@;
        proof {
            assert(m0.store[idx as int] == (opt_int(self.fonts@[idx as int].0), self.fonts@[idx as int].1@));
        }
        let e: usize;
        match self.fonts[idx].0 {
            Some(e0) => {
                e = e0;
            }
            None => {
                e = self.inner_index.len();
                self.inner_index.push(idx);
                self.fonts[idx].0 = Some(e);
                proof {
                    assert(self.model().ext =~= m0.ext.push(idx as int));
                    assert(self.model().store =~= m0.store.update(
                        idx as int,
                        (Some(e as int), m0.store[idx as int].1),
                    ));
                    assert(self.model().qc =~= m0.qc);
                    assert(self.model().ic =~= m0.ic);
                }
            }
        }
        let ghost m1 = self.model();
        self.query_cache.push((query, idx));
        let f = self.fonts[idx].1.clone();
        proof {
            assert(self.model().qc =~= m1.qc.push((q, idx as int)));
            assert(self.model().store =~= m1.store);
            assert(self.model().ic =~= m1.ic);
            assert(self.model().ext =~= m1.ext);
            let (m2, sv) = commit_spec(m0, q, idx as int);
            assert(self.model() =~= m2);
            assert(sv.0 == e as int && sv.1 == f@);
            lemma_find_witness(m0.qc, q);
            assert(model_wf(self.model())) by {
                let m = self.model();
                assert forall|k: int| 0 <= k < m.qc.len() implies {
                    let en = #[trigger] m.qc[k];
                    &&& 0 <= en.1 < m.store.len()
                    &&& m.store[en.1].0 is Some
                    &&& m.store[en.1].1.contains(en.0.character)
                    &&& en.0.fallback.len() > 0
                } by {
                    if k < m0.qc.len() {
                        assert(m.qc[k] == m0.qc[k]);
                    } else {
                        assert(m.qc[k] == (q, idx as int));
                    }
                }
            }
        }
        (e, f)
    }

    /// Return the font previously served under this external index. The index
    /// must come from an earlier successful `get` on this loader.
    pub fn get_with_index(&self, index: usize) -> (r: &Font)
        requires
            self.wf(),
            (index as int) < self.model().ext.len(),
        ensures
            r@ == self.model().store[self.model().ext[index as int]].1,
    {
        proof {
            assert(self.model().ext[index as int] == self.inner_index@[index as int] as int);
        }
        let internal = self.inner_index[index];
        &self.fonts[internal].1
    }
}

} // verus!
