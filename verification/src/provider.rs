//! Font providers: pluggable sources that advertise font descriptors and
//! fetch parsed fonts for them.

use vstd::prelude::*;
use crate::assoc::{alist_find, lemma_find_skip};
use crate::font::{Font, FontInfo, FontInfoV, info_eq};

verus! {

/// A source of fonts. A provider advertises an ordered, stable list of
/// descriptors, and fetches the font for a descriptor on demand; the fetch
/// may decline even for an advertised descriptor, and the loader treats that
/// as routine. Both operations are deterministic in the provider value:
/// repeated calls list the same descriptors in the same order, and fetching
/// the same descriptor yields the same font. Implementors state what they
/// advertise through `infos` and what they deliver through `supply`.
pub trait FontProvider: Sized {
    /// The advertised descriptors, in the provider's stable listing order.
    spec fn infos(&self) -> Seq<FontInfoV>;

    /// What fetching a descriptor yields: the characters of the delivered
    /// font, or `None` where the provider declines.
    spec fn supply(&self, info: FontInfoV) -> Option<Seq<char>>;

    /// Lists the advertised descriptors.
    fn available(&self) -> (r: Vec<FontInfo>)
        ensures
            r@.map_values(|i: FontInfo| i@) == self.infos(),
    ;

    /// Fetches and parses the font for a descriptor; `None` where the
    /// provider cannot deliver it.
    fn fetch(&self, info: &FontInfo) -> (r: Option<Font>)
        ensures
            match r {
                Some(f) => self.supply(info@) == Some(f@),
                None => self.supply(info@) is None,
            },
    ;
}

/// A provider backed by a fixed table: each entry advertises a descriptor and
/// holds either the font delivered for it or `None` for one the provider
/// lists but declines to deliver.
pub struct StaticProvider {
    /// The advertised descriptors with their fonts, in listing order.
    pub entries: Vec<(FontInfo, Option<Font>)>,
}

impl StaticProvider {
    /// The table's mathematical value: descriptor paired with delivered characters.
    pub open spec fn pairs(&self) -> Seq<(FontInfoV, Option<Seq<char>>)> {
        self.entries@.map_values(
            |e: (FontInfo, Option<Font>)|
                (
                    e.0@,
                    match e.1 {
                        Some(f) => Some(f@),
                        None => None,
                    },
                ),
        )
    }
}

impl FontProvider for StaticProvider {
    open spec fn infos(&self) -> Seq<FontInfoV> {
        self.entries@.map_values(|e: (FontInfo, Option<Font>)| e.0@)
    }

    open spec fn supply(&self, info: FontInfoV) -> Option<Seq<char>> {
        match alist_find(self.pairs(), info) {
            Some(o) => o,
            None => None,
        }
    }

    fn available(&self) -> (r: Vec<FontInfo>) {
        let mut r: Vec<FontInfo> = Vec::new();
        let mut i: usize = 0;
        while i < self.entries.len()
            invariant
                i <= self.entries@.len(),
                r@.map_values(|x: FontInfo| x@) == self.infos().take(i as int),
            decreases self.entries@.len() - i,
        {
            let info = self.entries[i].0.clone();
            let ghost prev = r@;
            r.push(info);
            proof {
                prev.lemma_push_map_commute(|x: FontInfo| x@, info);
                self.infos().lemma_take_succ_push(i as int);
                assert(info@ == self.infos()[i as int]);
                assert(r@.map_values(|x: FontInfo| x@) =~= self.infos().take(i as int + 1));
            }
            i += 1;
        }
        assert(self.infos().take(self.entries@.len() as int) =~= self.infos());
        r
    }

    fn fetch(&self, info: &FontInfo) -> (r: Option<Font>) {
        let mut i: usize = 0;
        while i < self.entries.len()
            invariant
                i <= self.entries@.len(),
                forall|j: int| 0 <= j < i ==> (#[trigger] self.pairs()[j]).0 != info@,
            decreases self.entries@.len() - i,
        {
            if info_eq(&self.entries[i].0, info) {
                proof {
                    lemma_find_skip(self.pairs(), info@, i as int);
                    assert(self.pairs().skip(i as int)[0] == self.pairs()[i as int]);
                    assert(self.pairs().skip(i as int).drop_first() =~= self.pairs().skip(
                        i as int + 1,
                    ));
                    assert(alist_find(self.pairs(), info@) == Some(self.pairs()[i as int].1));
                }
                match &self.entries[i].1 {
                    Some(f) => {
                        let out = f.clone();
                        assert(self.supply(info@) == Some(out@));
                        return Some(out);
                    }
                    None => {
                        assert(self.supply(info@) is None);
                        return None;
                    }
                }
            }
            i += 1;
        }
        proof {
            lemma_find_skip(self.pairs(), info@, self.pairs().len() as int);
            assert(self.pairs().skip(self.pairs().len() as int) =~= Seq::<
                (FontInfoV, Option<Seq<char>>),
            >::empty());
        }
        None
    }
}

} // verus!
