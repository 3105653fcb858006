use fontloader::font::{Font, FontClass, FontInfo, FontQuery};
use fontloader::loader::FontLoader;
use fontloader::provider::StaticProvider;

fn serif() -> FontClass {
    FontClass(1)
}

fn bold() -> FontClass {
    FontClass(2)
}

fn mono() -> FontClass {
    FontClass(3)
}

fn info(id: u64, classes: Vec<FontClass>) -> FontInfo {
    FontInfo { id, classes }
}

fn font(chars: &[char]) -> Font {
    Font::new(chars.to_vec())
}

fn query(character: char, classes: Vec<FontClass>, fallback: Vec<FontClass>) -> FontQuery {
    FontQuery { character, classes, fallback }
}

#[test]
fn scenario_second_font_within_same_class_wins() {
    // Provider advertises A{serif} without 'Q', then B{serif, bold} with 'Q'.
    let provider = StaticProvider {
        entries: vec![
            (info(1, vec![serif()]), Some(font(&['a', 'x']))),
            (info(2, vec![serif(), bold()]), Some(font(&['a', 'Q']))),
        ],
    };
    let mut loader: FontLoader<StaticProvider> = FontLoader::new();
    loader.add_font_provider(provider);

    let got = loader.get(query('Q', vec![], vec![serif()]));
    let (e, f) = got.expect("B's font must match");
    assert_eq!(e, 0);
    assert_eq!(f.chars, vec!['a', 'Q']);

    // A was loaded during the scan but never served: it has no external index
    // yet, so serving it now assigns the next index, 1.
    let got_a = loader.get(query('x', vec![], vec![serif()]));
    let (e_a, f_a) = got_a.expect("A's font must match");
    assert_eq!(e_a, 1);
    assert_eq!(f_a.chars, vec!['a', 'x']);
}

#[test]
fn empty_fallback_returns_absence() {
    let provider = StaticProvider {
        entries: vec![(info(1, vec![serif()]), Some(font(&['Q'])))],
    };
    let mut loader: FontLoader<StaticProvider> = FontLoader::new();
    loader.add_font_provider(provider);

    assert!(loader.get(query('Q', vec![], vec![])).is_none());
}

#[test]
fn no_providers_returns_absence() {
    let mut loader: FontLoader<StaticProvider> = FontLoader::new();
    assert!(loader.get(query('Q', vec![], vec![serif(), bold()])).is_none());
}

#[test]
fn repeated_query_served_identically() {
    let provider = StaticProvider {
        entries: vec![(info(1, vec![serif()]), Some(font(&['Q', 'z'])))],
    };
    let mut loader: FontLoader<StaticProvider> = FontLoader::new();
    loader.add_font_provider(provider);

    let (e1, f1) = loader.get(query('Q', vec![], vec![serif()])).expect("must match");
    let (e2, f2) = loader.get(query('Q', vec![], vec![serif()])).expect("must match");
    assert_eq!(e1, e2);
    assert_eq!(f1.chars, f2.chars);
}

#[test]
fn distinct_queries_same_entry_share_external_index() {
    // Both queries resolve to the same stored font, through different
    // fallback lists: the handle is interned.
    let provider = StaticProvider {
        entries: vec![(info(1, vec![serif(), bold()]), Some(font(&['a', 'b'])))],
    };
    let mut loader: FontLoader<StaticProvider> = FontLoader::new();
    loader.add_font_provider(provider);

    let (e1, _) = loader.get(query('a', vec![], vec![serif()])).expect("must match");
    let (e2, _) = loader.get(query('b', vec![bold()], vec![serif(), mono()])).expect("must match");
    assert_eq!(e1, e2);
}

#[test]
fn earlier_provider_wins() {
    let first = StaticProvider {
        entries: vec![(info(1, vec![serif()]), Some(font(&['Q', '1'])))],
    };
    let second = StaticProvider {
        entries: vec![(info(2, vec![serif()]), Some(font(&['Q', '2'])))],
    };
    let mut loader: FontLoader<StaticProvider> = FontLoader::new();
    loader.add_font_provider(first);
    loader.add_font_provider(second);

    let (_, f) = loader.get(query('Q', vec![], vec![serif()])).expect("must match");
    assert_eq!(f.chars, vec!['Q', '1']);
}

#[test]
fn earlier_fallback_class_exhausted_first() {
    // Under serif, the first candidate lacks the character and a later one
    // has it; a mono-only candidate that also has it must not win, because
    // the serif pass is exhausted first.
    let provider = StaticProvider {
        entries: vec![
            (info(1, vec![serif()]), Some(font(&['a']))),
            (info(2, vec![mono()]), Some(font(&['Q', 'm']))),
            (info(3, vec![serif()]), Some(font(&['Q', 's']))),
        ],
    };
    let mut loader: FontLoader<StaticProvider> = FontLoader::new();
    loader.add_font_provider(provider);

    let (_, f) = loader.get(query('Q', vec![], vec![serif(), mono()])).expect("must match");
    assert_eq!(f.chars, vec!['Q', 's']);
}

#[test]
fn required_classes_filter_candidates() {
    let provider = StaticProvider {
        entries: vec![
            (info(1, vec![serif()]), Some(font(&['Q']))),
            (info(2, vec![serif(), bold()]), Some(font(&['Q', 'b']))),
        ],
    };
    let mut loader: FontLoader<StaticProvider> = FontLoader::new();
    loader.add_font_provider(provider);

    let (_, f) = loader.get(query('Q', vec![bold()], vec![serif()])).expect("must match");
    assert_eq!(f.chars, vec!['Q', 'b']);
}

#[test]
fn declined_fetch_skips_to_next_candidate() {
    // The provider lists a descriptor it then declines to deliver: the scan
    // moves on and serves the next candidate.
    let provider = StaticProvider {
        entries: vec![
            (info(1, vec![serif()]), None),
            (info(2, vec![serif()]), Some(font(&['Q']))),
        ],
    };
    let mut loader: FontLoader<StaticProvider> = FontLoader::new();
    loader.add_font_provider(provider);

    let (_, f) = loader.get(query('Q', vec![], vec![serif()])).expect("must match");
    assert_eq!(f.chars, vec!['Q']);
}

#[test]
fn descriptor_declined_by_first_provider_comes_from_second() {
    // Both providers advertise the structurally same descriptor; the first
    // declines to deliver it, so the scan obtains it from the second.
    let first = StaticProvider {
        entries: vec![(info(1, vec![serif()]), None)],
    };
    let second = StaticProvider {
        entries: vec![(info(1, vec![serif()]), Some(font(&['Q'])))],
    };
    let mut loader: FontLoader<StaticProvider> = FontLoader::new();
    loader.add_font_provider(first);
    loader.add_font_provider(second);

    let (_, f) = loader.get(query('Q', vec![], vec![serif()])).expect("must match");
    assert_eq!(f.chars, vec!['Q']);
}

#[test]
fn no_character_match_returns_absence() {
    let provider = StaticProvider {
        entries: vec![(info(1, vec![serif()]), Some(font(&['a', 'b'])))],
    };
    let mut loader: FontLoader<StaticProvider> = FontLoader::new();
    loader.add_font_provider(provider);

    assert!(loader.get(query('Q', vec![], vec![serif()])).is_none());
}

#[test]
fn warmed_cache_serves_same_font_as_fresh_loader() {
    // Providers that deliver everything they advertise: the served font does
    // not depend on which queries came before, only the handle may.
    let entries = vec![
        (info(1, vec![serif()]), Some(font(&['a']))),
        (info(2, vec![serif(), bold()]), Some(font(&['a', 'Q']))),
    ];
    let warm_provider = StaticProvider {
        entries: vec![
            (info(1, vec![serif()]), Some(font(&['a']))),
            (info(2, vec![serif(), bold()]), Some(font(&['a', 'Q']))),
        ],
    };
    let fresh_provider = StaticProvider { entries };

    let mut warm: FontLoader<StaticProvider> = FontLoader::new();
    warm.add_font_provider(warm_provider);
    warm.get(query('a', vec![], vec![serif()])).expect("must match");

    let mut fresh: FontLoader<StaticProvider> = FontLoader::new();
    fresh.add_font_provider(fresh_provider);

    let (_, f_warm) = warm.get(query('Q', vec![], vec![serif()])).expect("must match");
    let (_, f_fresh) = fresh.get(query('Q', vec![], vec![serif()])).expect("must match");
    assert_eq!(f_warm.chars, f_fresh.chars);
}

#[test]
fn external_index_resolves_to_served_font() {
    let provider = StaticProvider {
        entries: vec![
            (info(1, vec![serif()]), Some(font(&['a']))),
            (info(2, vec![bold()]), Some(font(&['b']))),
        ],
    };
    let mut loader: FontLoader<StaticProvider> = FontLoader::new();
    loader.add_font_provider(provider);

    let (e_a, f_a) = loader.get(query('a', vec![], vec![serif()])).expect("must match");
    let (e_b, f_b) = loader.get(query('b', vec![], vec![bold()])).expect("must match");
    assert_eq!(loader.get_with_index(e_a).chars, f_a.chars);
    assert_eq!(loader.get_with_index(e_b).chars, f_b.chars);
}
