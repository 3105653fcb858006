use std::cell::Cell;
use std::rc::Rc;

use fontloader::font::{Font, FontClass, FontInfo, FontInfoV, FontQuery};
use fontloader::loader::FontLoader;
use fontloader::provider::FontProvider;
use vstd::seq::Seq;

/// A provider that counts its fetches, to observe deduplicated loading.
struct CountingProvider {
    entries: Vec<(FontInfo, Vec<char>)>,
    fetches: Rc<Cell<usize>>,
}

impl FontProvider for CountingProvider {
    // The two spec functions exist only for verification; nothing executes
    // them, but the compiled trait still asks for bodies.
    fn infos(&self) -> Seq<FontInfoV> {
        panic!()
    }

    fn supply(&self, _info: FontInfoV) -> Option<Seq<char>> {
        panic!()
    }

    fn available(&self) -> Vec<FontInfo> {
        self.entries
            .iter()
            .map(|e| FontInfo { id: e.0.id, classes: e.0.classes.clone() })
            .collect()
    }

    fn fetch(&self, info: &FontInfo) -> Option<Font> {
        self.fetches.set(self.fetches.get() + 1);
        self.entries
            .iter()
            .find(|e| e.0 == *info)
            .map(|e| Font::new(e.1.clone()))
    }
}

fn serif() -> FontClass {
    FontClass(1)
}

fn bold() -> FontClass {
    FontClass(2)
}

#[test]
fn same_info_fetched_at_most_once() {
    // Two distinct queries need the same descriptor: one fetch serves both.
    let fetches = Rc::new(Cell::new(0));
    let provider = CountingProvider {
        entries: vec![(
            FontInfo { id: 7, classes: vec![serif(), bold()] },
            vec!['a', 'b'],
        )],
        fetches: Rc::clone(&fetches),
    };
    let mut loader: FontLoader<CountingProvider> = FontLoader::new();
    loader.add_font_provider(provider);

    loader
        .get(FontQuery { character: 'a', classes: vec![], fallback: vec![serif()] })
        .expect("must match");
    loader
        .get(FontQuery { character: 'b', classes: vec![], fallback: vec![bold()] })
        .expect("must match");
    assert_eq!(fetches.get(), 1);
}

#[test]
fn cached_query_triggers_no_new_fetch() {
    let fetches = Rc::new(Cell::new(0));
    let provider = CountingProvider {
        entries: vec![(FontInfo { id: 7, classes: vec![serif()] }, vec!['a'])],
        fetches: Rc::clone(&fetches),
    };
    let mut loader: FontLoader<CountingProvider> = FontLoader::new();
    loader.add_font_provider(provider);

    loader
        .get(FontQuery { character: 'a', classes: vec![], fallback: vec![serif()] })
        .expect("must match");
    let before = fetches.get();
    loader
        .get(FontQuery { character: 'a', classes: vec![], fallback: vec![serif()] })
        .expect("must match");
    assert_eq!(fetches.get(), before);
    assert_eq!(before, 1);
}
